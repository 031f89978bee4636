use vstd::prelude::*;
use vstd::slice::slice_subrange;
use vstd::std_specs::iter::IteratorSpec;

use crate::fragment::{Fragment, FragmentView};

verus! {

/// The mathematical value of a sequence of fragments.
pub open spec fn fragments_view(s: Seq<Fragment>) -> Seq<FragmentView> {
    s.map_values(|f: Fragment| f@)
}

/// The overlap recurrence, consuming both patterns from the front: a wildcard
/// takes exactly one level, a glob zero or more. It holds exactly when some
/// concrete path matches both ([`lemma_overlaps_iff_common_path`]).
pub open spec fn overlaps(a: Seq<FragmentView>, b: Seq<FragmentView>) -> bool
    decreases a.len() + b.len(),
{
    if a.len() == 0 && b.len() == 0 {
        true
    } else if a.len() == 0 {
        b[0] is Glob && overlaps(a, b.drop_first())
    } else if b.len() == 0 {
        a[0] is Glob && overlaps(a.drop_first(), b)
    } else {
        step(
            a[0],
            b[0],
            overlaps(a.drop_first(), b.drop_first()),
            overlaps(a, b.drop_first()),
            overlaps(a.drop_first(), b),
        )
    }
}

/// One step of the overlap recurrence on two leading fragments `x` and `y`,
/// given whether the rest overlaps after both advance (`both`), after only
/// the right side advances (`right`), or after only the left side advances
/// (`left`).
pub open spec fn step(x: FragmentView, y: FragmentView, both: bool, right: bool, left: bool) -> bool {
    match (x, y) {
        (FragmentView::Glob, _) | (_, FragmentView::Glob) => both || right || left,
        (FragmentView::Literal(p), FragmentView::Literal(q)) => p == q && both,
        _ => both,
    }
}

/// Whether the suffixes of `a` from `i` and of `b` from `j` overlap.
pub open spec fn overlaps_from(a: Seq<FragmentView>, b: Seq<FragmentView>, i: int, j: int) -> bool {
    overlaps(a.skip(i), b.skip(j))
}

proof fn lemma_skip_next(a: Seq<FragmentView>, i: int)
    requires
        0 <= i < a.len(),
    ensures
        a.skip(i).drop_first() == a.skip(i + 1),
        a.skip(i)[0] == a[i],
        a.skip(i).len() == a.len() - i,
{
    assert(a.skip(i).drop_first() =~= a.skip(i + 1));
}

/// The recurrence of [`overlaps`] restated over suffix positions.
proof fn lemma_overlaps_from(a: Seq<FragmentView>, b: Seq<FragmentView>, i: int, j: int)
    requires
        0 <= i <= a.len(),
        0 <= j <= b.len(),
    ensures
        i == a.len() && j == b.len() ==> overlaps_from(a, b, i, j),
        i == a.len() && j < b.len() ==> overlaps_from(a, b, i, j) == (b[j] is Glob
            && overlaps_from(a, b, i, j + 1)),
        i < a.len() && j == b.len() ==> overlaps_from(a, b, i, j) == (a[i] is Glob
            && overlaps_from(a, b, i + 1, j)),
        i < a.len() && j < b.len() ==> overlaps_from(a, b, i, j) == step(
            a[i],
            b[j],
            overlaps_from(a, b, i + 1, j + 1),
            overlaps_from(a, b, i, j + 1),
            overlaps_from(a, b, i + 1, j),
        ),
{
    if i < a.len() {
        lemma_skip_next(a, i);
    }
    if j < b.len() {
        lemma_skip_next(b, j);
    }
    assert(a.skip(i).len() == a.len() - i);
    assert(b.skip(j).len() == b.len() - j);
}

/// Every pattern overlaps itself.
pub proof fn lemma_overlaps_reflexive(p: Seq<FragmentView>)
    ensures
        overlaps(p, p),
    decreases p.len(),
{
    if p.len() > 0 {
        lemma_overlaps_reflexive(p.drop_first());
    }
}

/// Overlap does not depend on the order of the two patterns.
pub proof fn lemma_overlaps_symmetric(a: Seq<FragmentView>, b: Seq<FragmentView>)
    ensures
        overlaps(a, b) == overlaps(b, a),
    decreases a.len() + b.len(),
{
    if a.len() > 0 {
        lemma_overlaps_symmetric(a.drop_first(), b);
    }
    if b.len() > 0 {
        lemma_overlaps_symmetric(a, b.drop_first());
    }
    if a.len() > 0 && b.len() > 0 {
        lemma_overlaps_symmetric(a.drop_first(), b.drop_first());
    }
}

/// The empty pattern overlaps exactly the patterns made of globs alone.
pub proof fn lemma_empty_overlaps_only_globs(b: Seq<FragmentView>)
    ensures
        overlaps(Seq::<FragmentView>::empty(), b) <==> forall|i: int|
            0 <= i < b.len() ==> #[trigger] b[i] is Glob,
    decreases b.len(),
{
    if b.len() > 0 {
        lemma_empty_overlaps_only_globs(b.drop_first());
        if forall|i: int| 0 <= i < b.len() ==> #[trigger] b[i] is Glob {
            assert forall|i: int| 0 <= i < b.drop_first().len() implies #[trigger] b.drop_first()[i] is Glob by {
                assert(b.drop_first()[i] == b[i + 1]);
            }
        }
        if b[0] is Glob && overlaps(Seq::<FragmentView>::empty(), b.drop_first()) {
            assert forall|i: int| 0 <= i < b.len() implies #[trigger] b[i] is Glob by {
                if i > 0 {
                    assert(b[i] == b.drop_first()[i - 1]);
                }
            }
        }
    }
}

/// Whether the concrete path `s` (one text per level) matches pattern `p`: a
/// literal takes one level with its own text, a wildcard any one level, a
/// glob any number of levels, none included.
pub open spec fn matches(p: Seq<FragmentView>, s: Seq<Seq<char>>) -> bool
    decreases p.len() + s.len(),
{
    if p.len() == 0 {
        s.len() == 0
    } else {
        match p[0] {
            FragmentView::Literal(t) => s.len() > 0 && s[0] == t && matches(
                p.drop_first(),
                s.drop_first(),
            ),
            FragmentView::Wildcard => s.len() > 0 && matches(p.drop_first(), s.drop_first()),
            FragmentView::Glob => matches(p.drop_first(), s) || (s.len() > 0 && matches(
                p,
                s.drop_first(),
            )),
        }
    }
}

/// Whether some concrete path matches both patterns.
pub open spec fn common_path_exists(a: Seq<FragmentView>, b: Seq<FragmentView>) -> bool {
    exists|s: Seq<Seq<char>>| matches(a, s) && matches(b, s)
}

/// A level's text that the leading fragment `f` accepts.
spec fn level_for(f: FragmentView) -> Seq<char> {
    match f {
        FragmentView::Literal(t) => t,
        _ => Seq::<char>::empty(),
    }
}

/// A leading fragment takes one level whose text it accepts.
proof fn lemma_matches_one_level(p: Seq<FragmentView>, s: Seq<Seq<char>>, w: Seq<char>)
    requires
        p.len() > 0,
        matches(p.drop_first(), s),
        p[0] is Literal ==> w == level_for(p[0]),
    ensures
        matches(p, seq![w] + s),
{
    let s1 = seq![w] + s;
    assert(s1.drop_first() =~= s);
    assert(s1[0] == w);
    if p[0] is Glob {
        assert(matches(p, s));
    }
}

/// A path that both patterns match, built from a proof of the recurrence.
proof fn common_path(a: Seq<FragmentView>, b: Seq<FragmentView>) -> (s: Seq<Seq<char>>)
    requires
        overlaps(a, b),
    ensures
        matches(a, s) && matches(b, s),
    decreases a.len() + b.len(),
{
    if a.len() == 0 && b.len() == 0 {
        Seq::<Seq<char>>::empty()
    } else if a.len() == 0 {
        common_path(a, b.drop_first())
    } else if b.len() == 0 {
        common_path(a.drop_first(), b)
    } else {
        let a1 = a.drop_first();
        let b1 = b.drop_first();
        if overlaps(a1, b1) && (a[0] is Glob || b[0] is Glob || !(a[0] is Literal) || !(
        b[0] is Literal) || a[0] == b[0]) {
            let s = common_path(a1, b1);
            let w = if a[0] is Literal { level_for(a[0]) } else { level_for(b[0]) };
            lemma_matches_one_level(a, s, w);
            lemma_matches_one_level(b, s, w);
            seq![w] + s
        } else if overlaps(a, b1) && b[0] is Glob {
            common_path(a, b1)
        } else if overlaps(a1, b) && a[0] is Glob {
            common_path(a1, b)
        } else if overlaps(a, b1) {
            // `a` leads with a glob, which takes the level that `b` leads with.
            let s = common_path(a, b1);
            let w = level_for(b[0]);
            lemma_matches_one_level(b, s, w);
            let s1 = seq![w] + s;
            assert(s1.drop_first() =~= s);
            s1
        } else {
            let s = common_path(a1, b);
            let w = level_for(a[0]);
            lemma_matches_one_level(a, s, w);
            let s1 = seq![w] + s;
            assert(s1.drop_first() =~= s);
            s1
        }
    }
}

/// A path that both patterns match makes the recurrence hold.
proof fn lemma_common_path_overlaps(a: Seq<FragmentView>, b: Seq<FragmentView>, s: Seq<Seq<char>>)
    requires
        matches(a, s),
        matches(b, s),
    ensures
        overlaps(a, b),
    decreases a.len() + b.len() + s.len(),
{
    if a.len() == 0 && b.len() == 0 {
    } else if a.len() == 0 {
        lemma_common_path_overlaps(a, b.drop_first(), s);
    } else if b.len() == 0 {
        lemma_common_path_overlaps(a.drop_first(), b, s);
    } else if a[0] is Glob && matches(a.drop_first(), s) {
        lemma_common_path_overlaps(a.drop_first(), b, s);
    } else if b[0] is Glob && matches(b.drop_first(), s) {
        lemma_common_path_overlaps(a, b.drop_first(), s);
    } else {
        let s1 = s.drop_first();
        let a_next = if a[0] is Glob { a } else { a.drop_first() };
        let b_next = if b[0] is Glob { b } else { b.drop_first() };
        lemma_common_path_overlaps(a_next, b_next, s1);
    }
}

/// Two patterns satisfy the overlap recurrence exactly when some concrete
/// path matches both.
pub proof fn lemma_overlaps_iff_common_path(a: Seq<FragmentView>, b: Seq<FragmentView>)
    ensures
        overlaps(a, b) == common_path_exists(a, b),
{
    if overlaps(a, b) {
        let s = common_path(a, b);
        assert(matches(a, s) && matches(b, s));
    }
    if common_path_exists(a, b) {
        let s = choose|s: Seq<Seq<char>>| matches(a, s) && matches(b, s);
        lemma_common_path_overlaps(a, b, s);
    }
}

/// One cell of the overlap table, from its three neighbours.
fn step_cell(x: &Fragment, y: &Fragment, both: bool, right: bool, left: bool) -> (r: bool)
    ensures
        r == step(x@, y@, both, right, left),
{
    match (x, y) {
        (Fragment::Literal(p), Fragment::Literal(q)) => p.eq(q) && both,
        (Fragment::Literal(_), Fragment::Wildcard)
        | (Fragment::Wildcard, Fragment::Literal(_))
        | (Fragment::Wildcard, Fragment::Wildcard) => both,
        (Fragment::Glob, _) | (_, Fragment::Glob) => both || right || left,
    }
}

/// A row of `len + 1` cells, all false.
fn false_row(len: usize) -> (r: Vec<bool>)
    ensures
        r@.len() == len + 1,
{
    let mut r: Vec<bool> = Vec::new();
    r.push(false);
    let mut k: usize = 0;
    while k < len
        invariant
            k <= len,
            r@.len() == k + 1,
        decreases len - k,
    {
        r.push(false);
        k = k + 1;
    }
    r
}

/// Fills `row` as row `i` of the overlap table of `a` and `b`, given row
/// `i + 1` in `below` (unused when `i` is the last row).
fn fill_row(a: &[Fragment], b: &[Fragment], i: usize, below: &Vec<bool>, row: &mut Vec<bool>)
    requires
        i <= a@.len(),
        old(row)@.len() == b@.len() + 1,
        i < a@.len() ==> below@.len() == b@.len() + 1,
        i < a@.len() ==> forall|j: int|
            0 <= j <= b@.len() ==> #[trigger] below@[j] == overlaps_from(
                fragments_view(a@),
                fragments_view(b@),
                i + 1,
                j,
            ),
    ensures
        final(row)@.len() == b@.len() + 1,
        forall|j: int|
            0 <= j <= b@.len() ==> #[trigger] final(row)@[j] == overlaps_from(
                fragments_view(a@),
                fragments_view(b@),
                i as int,
                j,
            ),
{
    let ghost va = fragments_view(a@);
    let ghost vb = fragments_view(b@);
    let lb = b.len();
    proof {
        lemma_overlaps_from(va, vb, i as int, lb as int);
    }
    if i == a.len() {
        row[lb] = true;
    } else {
        row[lb] = below[lb] && a[i].is_glob();
    }
    let mut j: usize = lb;
    while j > 0
        invariant
            va == fragments_view(a@),
            vb == fragments_view(b@),
            lb == b@.len(),
            i <= a@.len(),
            j <= lb,
            row@.len() == lb + 1,
            i < a@.len() ==> below@.len() == lb + 1,
            i < a@.len() ==> forall|k: int|
                0 <= k <= lb ==> #[trigger] below@[k] == overlaps_from(va, vb, i + 1, k),
            forall|k: int| j <= k <= lb ==> #[trigger] row@[k] == overlaps_from(va, vb, i as int, k),
        decreases j,
    {
        j = j - 1;
        proof {
            lemma_overlaps_from(va, vb, i as int, j as int);
        }
        let v = if i == a.len() {
            b[j].is_glob() && row[j + 1]
        } else {
            step_cell(&a[i], &b[j], below[j + 1], row[j + 1], below[j])
        };
        row[j] = v;
    }
}

/// A pattern: a sequence of fragments, one per level.
#[derive(Debug, Clone)]
pub struct Path(pub Vec<Fragment>);

impl PartialEq for Path {
    fn eq(&self, other: &Path) -> (r: bool)
        ensures
            r == (self@ == other@),
    {
        if self.0.len() != other.0.len() {
            proof {
                assert(self@.len() != other@.len());
            }
            return false;
        }
        let mut k: usize = 0;
        while k < self.0.len()
            invariant
                self.0@.len() == other.0@.len(),
                k <= self.0@.len(),
                forall|x: int| 0 <= x < k ==> #[trigger] self@[x] == other@[x],
            decreases self.0@.len() - k,
        {
            if !self.0[k].eq(&other.0[k]) {
                proof {
                    assert(self@[k as int] != other@[k as int]);
                }
                return false;
            }
            k = k + 1;
        }
        assert(self@ =~= other@);
        true
    }
}

impl vstd::std_specs::cmp::PartialEqSpecImpl for Path {
    open spec fn obeys_eq_spec() -> bool {
        true
    }

    open spec fn eq_spec(&self, other: &Path) -> bool {
        self@ == other@
    }
}

impl Eq for Path {
}

impl AsRef<[Fragment]> for Path {
    fn as_ref(&self) -> (r: &[Fragment])
        ensures
            r@ == self.0@,
    {
        self.0.as_slice()
    }
}

impl IntoIterator for Path {
    type Item = Fragment;
    type IntoIter = std::vec::IntoIter<Fragment>;

    fn into_iter(self) -> (r: Self::IntoIter)
        ensures
            r.remaining() == self.0@,
    {
        broadcast use vstd::std_specs::vec::axiom_spec_into_iter;

        self.0.into_iter()
    }
}

impl View for Path {
    type V = Seq<FragmentView>;

    open spec fn view(&self) -> Seq<FragmentView> {
        fragments_view(self.0@)
    }
}

impl Path {
    /// The empty pattern, which stands for the root.
    pub fn new() -> (r: Path)
        ensures
            r@ == Seq::<FragmentView>::empty(),
    {
        let r = Path(Vec::new());
        assert(r@ =~= Seq::<FragmentView>::empty());
        r
    }

    /// The fragments of this pattern, in order.
    pub fn fragments(&self) -> (r: &[Fragment])
        ensures
            fragments_view(r@) == self@,
    {
        self.0.as_slice()
    }

    /// Decides overlap by direct recursion on the two sequences. Its cost is
    /// exponential where runs of globs face each other.
    pub fn recursive_overlap(a: &[Fragment], b: &[Fragment]) -> (r: bool)
        ensures
            r == overlaps(fragments_view(a@), fragments_view(b@)),
            r == common_path_exists(fragments_view(a@), fragments_view(b@)),
        decreases a@.len() + b@.len(),
    {
        proof {
            lemma_overlaps_iff_common_path(fragments_view(a@), fragments_view(b@));
        }
        let ghost va = fragments_view(a@);
        let ghost vb = fragments_view(b@);
        if a.len() == 0 && b.len() == 0 {
            return true;
        }
        let a1: &[Fragment] = if a.len() > 0 { slice_subrange(a, 1, a.len()) } else { a };
        let b1: &[Fragment] = if b.len() > 0 { slice_subrange(b, 1, b.len()) } else { b };
        proof {
            if a.len() > 0 {
                assert(fragments_view(a1@) =~= va.drop_first());
            }
            if b.len() > 0 {
                assert(fragments_view(b1@) =~= vb.drop_first());
            }
        }
        if a.len() == 0 {
            b[0].is_glob() && Path::recursive_overlap(a, b1)
        } else if b.len() == 0 {
            a[0].is_glob() && Path::recursive_overlap(a1, b)
        } else {
            match (&a[0], &b[0]) {
                (Fragment::Literal(p), Fragment::Literal(q)) => p.eq(q)
                    && Path::recursive_overlap(a1, b1),
                (Fragment::Literal(_), Fragment::Wildcard)
                | (Fragment::Wildcard, Fragment::Literal(_))
                | (Fragment::Wildcard, Fragment::Wildcard) => Path::recursive_overlap(a1, b1),
                (Fragment::Glob, _) | (_, Fragment::Glob) => {
                    Path::recursive_overlap(a1, b1) || Path::recursive_overlap(a, b1)
                        || Path::recursive_overlap(a1, b)
                },
            }
        }
    }

    /// Decides overlap with a full table of `(|a| + 1) * (|b| + 1)` cells,
    /// where cell `(i, j)` says whether the suffixes from `i` and `j` overlap.
    pub fn dp_overlap(a: &[Fragment], b: &[Fragment]) -> (r: bool)
        ensures
            r == overlaps(fragments_view(a@), fragments_view(b@)),
            r == common_path_exists(fragments_view(a@), fragments_view(b@)),
    {
        proof {
            lemma_overlaps_iff_common_path(fragments_view(a@), fragments_view(b@));
        }
        let ghost va = fragments_view(a@);
        let ghost vb = fragments_view(b@);
        let la = a.len();
        let lb = b.len();
        let mut memo: Vec<Vec<bool>> = Vec::new();
        memo.push(false_row(lb));
        let mut k: usize = 0;
        while k < la
            invariant
                k <= la,
                memo@.len() == k + 1,
                forall|x: int| 0 <= x <= k ==> (#[trigger] memo@[x])@.len() == lb + 1,
            decreases la - k,
        {
            memo.push(false_row(lb));
            k = k + 1;
        }
        let mut row = false_row(lb);
        fill_row(a, b, la, &memo[la], &mut row);
        memo[la] = row;
        let mut i: usize = la;
        while i > 0
            invariant
                va == fragments_view(a@),
                vb == fragments_view(b@),
                la == a@.len(),
                lb == b@.len(),
                i <= la,
                memo@.len() == la + 1,
                memo@[i as int]@.len() == lb + 1,
                forall|j: int|
                    0 <= j <= lb ==> #[trigger] memo@[i as int]@[j] == overlaps_from(
                        va,
                        vb,
                        i as int,
                        j,
                    ),
            decreases i,
        {
            i = i - 1;
            let mut row = false_row(lb);
            fill_row(a, b, i, &memo[i + 1], &mut row);
            memo[i] = row;
        }
        assert(va.skip(0) =~= va);
        assert(vb.skip(0) =~= vb);
        memo[0][0]
    }

    /// Decides overlap like [`Path::dp_overlap`], keeping only two rows of the
    /// table at a time, each as long as the shorter pattern plus one.
    pub fn optimized_overlap(a: &[Fragment], b: &[Fragment]) -> (r: bool)
        ensures
            r == overlaps(fragments_view(a@), fragments_view(b@)),
            r == common_path_exists(fragments_view(a@), fragments_view(b@)),
    {
        proof {
            lemma_overlaps_iff_common_path(fragments_view(a@), fragments_view(b@));
            lemma_overlaps_symmetric(fragments_view(a@), fragments_view(b@));
        }
        if b.len() <= a.len() {
            Path::rolling_overlap(a, b)
        } else {
            Path::rolling_overlap(b, a)
        }
    }

    /// The table of [`Path::dp_overlap`], two rows of `|b| + 1` cells at a time.
    fn rolling_overlap(a: &[Fragment], b: &[Fragment]) -> (r: bool)
        ensures
            r == overlaps(fragments_view(a@), fragments_view(b@)),
    {
        let ghost va = fragments_view(a@);
        let ghost vb = fragments_view(b@);
        let la = a.len();
        let lb = b.len();
        let mut cur = false_row(lb);
        let mut prev = false_row(lb);
        fill_row(a, b, la, &prev, &mut cur);
        let mut i: usize = la;
        while i > 0
            invariant
                va == fragments_view(a@),
                vb == fragments_view(b@),
                la == a@.len(),
                lb == b@.len(),
                i <= la,
                cur@.len() == lb + 1,
                prev@.len() == lb + 1,
                forall|j: int|
                    0 <= j <= lb ==> #[trigger] cur@[j] == overlaps_from(va, vb, i as int, j),
            decreases i,
        {
            i = i - 1;
            std::mem::swap(&mut prev, &mut cur);
            fill_row(a, b, i, &prev, &mut cur);
        }
        assert(va.skip(0) =~= va);
        assert(vb.skip(0) =~= vb);
        cur[0]
    }

    /// Whether some concrete path matches both patterns.
    pub fn overlap(a: &[Fragment], b: &[Fragment]) -> (r: bool)
        ensures
            r == overlaps(fragments_view(a@), fragments_view(b@)),
            r == common_path_exists(fragments_view(a@), fragments_view(b@)),
    {
        proof {
            lemma_overlaps_iff_common_path(fragments_view(a@), fragments_view(b@));
        }
        Path::optimized_overlap(a, b)
    }
}

} // verus!
