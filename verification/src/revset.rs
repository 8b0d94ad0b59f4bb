//! Revset expressions over the index: how the symbols that users write
//! become commits, and which commits an expression names.

use vstd::prelude::*;
use vstd::string::StringExecFns;
use crate::ids::CommitId;
use crate::index::change_id::{
    hex_values, is_hex_text, resolution_of, ChangeIdIndex, HexPrefix, IdPairView,
    PrefixResolution, ResolutionView,
};
use crate::index::error::{IndexError, IndexErrorView};
use crate::index::graph::{has_commit, position_of, positions_of, EntryView};
use crate::index::mutable::{id_views, ReadonlyIndex};
use crate::index::recovery::{object_of, ObjectStore, StoredCommit};
use crate::index::reach::{lemma_marked_ids_same, marked_ids};
use crate::index::ancestry::cleared_marks;
use crate::index::chain::SegmentChain;
use crate::index::revset::{
    as_ints, first_missing, is_in_range, positions_agree, GenerationRange, ParentsRange,
};
use crate::refs::{clone_ids, LocalBookmark, RepoView};
use crate::text::{text_order, TextOrder};

verus! {

/// A revset expression.
#[derive(Debug)]
pub enum RevsetExpression {
    /// No commit.
    Nothing,
    /// The root commit.
    Root,
    /// What a symbol stands for: the target of the bookmark of that name,
    /// or the commits of the change whose id starts with it.
    Symbol(String),
    /// The commits with these ids.
    Commits(Vec<CommitId>),
    /// The commits within a range of generations of the heads that are not
    /// in the history of the roots.
    Range {
        roots: Box<RevsetExpression>,
        heads: Box<RevsetExpression>,
        generation: GenerationRange,
        parents_range: ParentsRange,
    },
    /// The commits of either expression.
    Union(Box<RevsetExpression>, Box<RevsetExpression>),
    /// The commits of both expressions.
    Intersection(Box<RevsetExpression>, Box<RevsetExpression>),
}

/// An expression as plain values.
pub enum ExpressionView {
    Nothing,
    Root,
    Symbol(Seq<char>),
    Commits(Seq<Seq<u8>>),
    Range {
        roots: Box<ExpressionView>,
        heads: Box<ExpressionView>,
        generation: GenerationRange,
        parents_range: ParentsRange,
    },
    Union(Box<ExpressionView>, Box<ExpressionView>),
    Intersection(Box<ExpressionView>, Box<ExpressionView>),
}

/// What an expression says, as plain values.
pub open spec fn expression_view(e: RevsetExpression) -> ExpressionView
    decreases e,
{
    match e {
        RevsetExpression::Nothing => ExpressionView::Nothing,
        RevsetExpression::Root => ExpressionView::Root,
        RevsetExpression::Symbol(name) => ExpressionView::Symbol(name@),
        RevsetExpression::Commits(ids) => ExpressionView::Commits(id_views(ids@)),
        RevsetExpression::Range { roots, heads, generation, parents_range } => {
            ExpressionView::Range {
                roots: Box::new(expression_view(*roots)),
                heads: Box::new(expression_view(*heads)),
                generation,
                parents_range,
            }
        },
        RevsetExpression::Union(a, b) => ExpressionView::Union(
            Box::new(expression_view(*a)),
            Box::new(expression_view(*b)),
        ),
        RevsetExpression::Intersection(a, b) => ExpressionView::Intersection(
            Box::new(expression_view(*a)),
            Box::new(expression_view(*b)),
        ),
    }
}

impl View for RevsetExpression {
    type V = ExpressionView;

    open spec fn view(&self) -> ExpressionView {
        expression_view(*self)
    }
}

/// Whether the expression holds no symbol.
pub open spec fn is_resolved(e: ExpressionView) -> bool
    decreases e,
{
    match e {
        ExpressionView::Symbol(_) => false,
        ExpressionView::Range { roots, heads, generation, parents_range } => is_resolved(*roots)
            && is_resolved(*heads),
        ExpressionView::Union(a, b) => is_resolved(*a) && is_resolved(*b),
        ExpressionView::Intersection(a, b) => is_resolved(*a) && is_resolved(*b),
        _ => true,
    }
}

/// Why a symbol stands for no commit.
#[derive(Debug)]
pub enum RevsetResolutionError {
    /// Nothing carries the name.
    NoSuchRevision(String),
    /// Several changes have an id that starts with the name.
    AmbiguousIdPrefix(String),
}

/// A resolution error as plain values.
pub enum ResolutionErrorView {
    NoSuchRevision(Seq<char>),
    AmbiguousIdPrefix(Seq<char>),
}

impl View for RevsetResolutionError {
    type V = ResolutionErrorView;

    open spec fn view(&self) -> ResolutionErrorView {
        match self {
            RevsetResolutionError::NoSuchRevision(name) => ResolutionErrorView::NoSuchRevision(
                name@,
            ),
            RevsetResolutionError::AmbiguousIdPrefix(name) => ResolutionErrorView::AmbiguousIdPrefix(
                name@,
            ),
        }
    }
}

/// What a resolution error says.
pub open spec fn resolution_error_text(error: ResolutionErrorView) -> Seq<char> {
    match error {
        ResolutionErrorView::NoSuchRevision(name) => "Revision `"@ + name + "` doesn't exist"@,
        ResolutionErrorView::AmbiguousIdPrefix(name) => "Change ID prefix `"@ + name
            + "` is ambiguous"@,
    }
}

impl RevsetResolutionError {
    /// What the error says.
    pub fn to_text(&self) -> (text: String)
        ensures
            text@ == resolution_error_text(self@),
    {
        match self {
            RevsetResolutionError::NoSuchRevision(name) => {
                let mut text = String::from_str("Revision `");
                text.append(name.as_str());
                text.append("` doesn't exist");
                text
            },
            RevsetResolutionError::AmbiguousIdPrefix(name) => {
                let mut text = String::from_str("Change ID prefix `");
                text.append(name.as_str());
                text.append("` is ambiguous");
                text
            },
        }
    }
}

/// Why a revset of a user names no commits.
#[derive(Debug)]
pub enum UserRevsetEvaluationError {
    /// A symbol stands for nothing.
    Resolution(RevsetResolutionError),
    /// The index cannot evaluate the expression.
    Evaluation(IndexError),
}

/// The commits that the bookmark of the given name points to, where one of
/// the first `upto` bookmarks carries the name and points to something.
pub open spec fn bookmark_commits(locals: Seq<LocalBookmark>, name: Seq<char>, upto: int) -> Option<
    Seq<Seq<u8>>,
>
    decreases upto,
{
    if upto <= 0 {
        None
    } else if locals[upto - 1].name@ == name && locals[upto - 1].target@.is_present() {
        Some(locals[upto - 1].target@.adds)
    } else {
        bookmark_commits(locals, name, upto - 1)
    }
}

/// The commits that a symbol stands for: the target of the bookmark of
/// that name, else the commits of the one change whose id starts with the
/// symbol read as hexadecimal digits.
pub open spec fn symbol_commits(
    locals: Seq<LocalBookmark>,
    pairs: Seq<IdPairView>,
    name: Seq<char>,
) -> Result<Seq<Seq<u8>>, ResolutionErrorView> {
    match bookmark_commits(locals, name, locals.len() as int) {
        Some(ids) => Ok(ids),
        None => if is_hex_text(name) {
            match resolution_of(pairs, hex_values(name)) {
                ResolutionView::SingleMatch(ids) => Ok(ids),
                ResolutionView::AmbiguousMatch => Err(ResolutionErrorView::AmbiguousIdPrefix(name)),
                ResolutionView::NoMatch => Err(ResolutionErrorView::NoSuchRevision(name)),
            }
        } else {
            Err(ResolutionErrorView::NoSuchRevision(name))
        },
    }
}

/// The expression with every symbol replaced by its commits, or the error
/// of the first symbol that stands for nothing. Roots are looked at before
/// heads, and the first of two expressions before the second.
pub open spec fn resolved_expression(
    e: ExpressionView,
    locals: Seq<LocalBookmark>,
    pairs: Seq<IdPairView>,
) -> Result<ExpressionView, ResolutionErrorView>
    decreases e,
{
    match e {
        ExpressionView::Symbol(name) => match symbol_commits(locals, pairs, name) {
            Ok(ids) => Ok(ExpressionView::Commits(ids)),
            Err(error) => Err(error),
        },
        ExpressionView::Range { roots, heads, generation, parents_range } => {
            match resolved_expression(*roots, locals, pairs) {
                Err(error) => Err(error),
                Ok(r) => match resolved_expression(*heads, locals, pairs) {
                    Err(error) => Err(error),
                    Ok(h) => Ok(
                        ExpressionView::Range {
                            roots: Box::new(r),
                            heads: Box::new(h),
                            generation,
                            parents_range,
                        },
                    ),
                },
            }
        },
        ExpressionView::Union(a, b) => match resolved_expression(*a, locals, pairs) {
            Err(error) => Err(error),
            Ok(x) => match resolved_expression(*b, locals, pairs) {
                Err(error) => Err(error),
                Ok(y) => Ok(ExpressionView::Union(Box::new(x), Box::new(y))),
            },
        },
        ExpressionView::Intersection(a, b) => match resolved_expression(*a, locals, pairs) {
            Err(error) => Err(error),
            Ok(x) => match resolved_expression(*b, locals, pairs) {
                Err(error) => Err(error),
                Ok(y) => Ok(ExpressionView::Intersection(Box::new(x), Box::new(y))),
            },
        },
        other => Ok(other),
    }
}

/// Resolves symbols into commits: by the local bookmarks of a view, and by
/// the change ids in the history of a set of heads.
#[derive(Debug)]
pub struct SymbolResolver<'a> {
    pub view: &'a RepoView,
    pub change_ids: &'a ChangeIdIndex,
}

/// A resolved expression holds no symbol, and resolving it once more
/// changes nothing.
pub proof fn law_resolved_holds_no_symbol(
    e: ExpressionView,
    locals: Seq<LocalBookmark>,
    pairs: Seq<IdPairView>,
)
    ensures
        match resolved_expression(e, locals, pairs) {
            Ok(r) => is_resolved(r) && resolved_expression(r, locals, pairs) == Ok::<
                ExpressionView,
                ResolutionErrorView,
            >(r),
            Err(_) => !is_resolved(e),
        },
    decreases e,
{
    match e {
        ExpressionView::Range { roots, heads, generation, parents_range } => {
            law_resolved_holds_no_symbol(*roots, locals, pairs);
            law_resolved_holds_no_symbol(*heads, locals, pairs);
        },
        ExpressionView::Union(a, b) => {
            law_resolved_holds_no_symbol(*a, locals, pairs);
            law_resolved_holds_no_symbol(*b, locals, pairs);
        },
        ExpressionView::Intersection(a, b) => {
            law_resolved_holds_no_symbol(*a, locals, pairs);
            law_resolved_holds_no_symbol(*b, locals, pairs);
        },
        _ => {},
    }
}

/// What a result of resolved commits holds, as plain values.
pub open spec fn commits_view(found: Result<Vec<CommitId>, RevsetResolutionError>) -> Result<
    Seq<Seq<u8>>,
    ResolutionErrorView,
> {
    match found {
        Ok(ids) => Ok(id_views(ids@)),
        Err(error) => Err(error@),
    }
}

/// What a result of an expression holds, as plain values.
pub open spec fn expression_result_view(
    found: Result<RevsetExpression, RevsetResolutionError>,
) -> Result<ExpressionView, ResolutionErrorView> {
    match found {
        Ok(e) => Ok(e@),
        Err(error) => Err(error@),
    }
}

/// The resolver over the bookmarks of a view and the change ids of an
/// index of change ids.
pub fn default_symbol_resolver<'a>(view: &'a RepoView, change_ids: &'a ChangeIdIndex) -> (resolver:
    SymbolResolver<'a>)
    ensures
        resolver.view == view,
        resolver.change_ids == change_ids,
{
    SymbolResolver { view, change_ids }
}

impl<'a> SymbolResolver<'a> {
    /// The commits that a symbol stands for.
    pub fn resolve_symbol(&self, name: &str) -> (found: Result<Vec<CommitId>, RevsetResolutionError>)
        ensures
            commits_view(found) == symbol_commits(
                self.view.local_bookmarks@,
                self.change_ids@,
                name@,
            ),
    {
        let locals = &self.view.local_bookmarks;
        let mut target: Option<usize> = None;
        let mut i: usize = 0;
        while i < locals.len()
            invariant
                i <= locals.len(),
                match target {
                    Some(t) => t < i && bookmark_commits(locals@, name@, i as int) == Some(
                        locals@[t as int].target@.adds,
                    ),
                    None => bookmark_commits(locals@, name@, i as int) is None,
                },
            decreases locals.len() - i,
        {
            if text_order(locals[i].name.as_str(), name) == TextOrder::Same
                && locals[i].target.is_present() {
                target = Some(i);
            }
            i += 1;
        }
        match target {
            Some(t) => {
                let ids = clone_ids(&locals[t].target.adds);
                assert(id_views(ids@) =~= locals@[t as int].target@.adds);
                Ok(ids)
            },
            None => {
                match HexPrefix::try_from_hex(name) {
                    Some(prefix) => match self.change_ids.resolve_prefix(&prefix) {
                        PrefixResolution::SingleMatch(ids) => Ok(ids),
                        PrefixResolution::AmbiguousMatch => Err(
                            RevsetResolutionError::AmbiguousIdPrefix(String::from_str(name)),
                        ),
                        PrefixResolution::NoMatch => Err(
                            RevsetResolutionError::NoSuchRevision(String::from_str(name)),
                        ),
                    },
                    None => Err(RevsetResolutionError::NoSuchRevision(String::from_str(name))),
                }
            },
        }
    }

    /// The expression with every symbol replaced by its commits.
    pub fn resolve(&self, expression: &RevsetExpression) -> (resolved: Result<
        RevsetExpression,
        RevsetResolutionError,
    >)
        ensures
            expression_result_view(resolved) == resolved_expression(
                expression@,
                self.view.local_bookmarks@,
                self.change_ids@,
            ),
        decreases expression,
    {
        match expression {
            RevsetExpression::Nothing => Ok(RevsetExpression::Nothing),
            RevsetExpression::Root => Ok(RevsetExpression::Root),
            RevsetExpression::Symbol(name) => match self.resolve_symbol(name.as_str()) {
                Ok(ids) => Ok(RevsetExpression::Commits(ids)),
                Err(error) => Err(error),
            },
            RevsetExpression::Commits(ids) => {
                let copy = clone_ids(ids);
                assert(id_views(copy@) =~= id_views(ids@));
                Ok(RevsetExpression::Commits(copy))
            },
            RevsetExpression::Range { roots, heads, generation, parents_range } => {
                let r = match self.resolve(roots) {
                    Ok(r) => r,
                    Err(error) => {
                        return Err(error);
                    },
                };
                let h = match self.resolve(heads) {
                    Ok(h) => h,
                    Err(error) => {
                        return Err(error);
                    },
                };
                Ok(
                    RevsetExpression::Range {
                        roots: Box::new(r),
                        heads: Box::new(h),
                        generation: *generation,
                        parents_range: *parents_range,
                    },
                )
            },
            RevsetExpression::Union(a, b) => {
                let x = match self.resolve(a) {
                    Ok(x) => x,
                    Err(error) => {
                        return Err(error);
                    },
                };
                let y = match self.resolve(b) {
                    Ok(y) => y,
                    Err(error) => {
                        return Err(error);
                    },
                };
                Ok(RevsetExpression::Union(Box::new(x), Box::new(y)))
            },
            RevsetExpression::Intersection(a, b) => {
                let x = match self.resolve(a) {
                    Ok(x) => x,
                    Err(error) => {
                        return Err(error);
                    },
                };
                let y = match self.resolve(b) {
                    Ok(y) => y,
                    Err(error) => {
                        return Err(error);
                    },
                };
                Ok(RevsetExpression::Intersection(Box::new(x), Box::new(y)))
            },
        }
    }
}

/// Whether one of the ids is the id of the entry at `p`.
pub open spec fn is_one_of(g: Seq<EntryView>, ids: Seq<Seq<u8>>, p: int) -> bool {
    exists|i: int| 0 <= i < ids.len() && #[trigger] positions_of(g, ids)[i] == p
}

/// The marked positions among the first `upto`, in ascending order.
pub open spec fn marked_positions(marks: Seq<bool>, upto: int) -> Seq<int>
    decreases upto,
{
    if upto <= 0 {
        Seq::empty()
    } else if marks[upto - 1] {
        marked_positions(marks, upto - 1).push(upto - 1)
    } else {
        marked_positions(marks, upto - 1)
    }
}

/// Whether the range is malformed: it ends before it starts.
pub open spec fn is_malformed(generation: GenerationRange, parents_range: ParentsRange) -> bool {
    generation.start > generation.end || parents_range.start > parents_range.end
}

/// For each position, whether the expression names its commit, or the
/// reason why the expression cannot be evaluated: a range that ends before
/// it starts, or a commit that is not indexed. A symbol that has not been
/// resolved names nothing.
pub open spec fn expression_marks(g: Seq<EntryView>, e: ExpressionView) -> Result<
    Seq<bool>,
    IndexErrorView,
>
    decreases e,
{
    match e {
        ExpressionView::Nothing => Ok(Seq::new(g.len(), |p: int| false)),
        ExpressionView::Root => Ok(Seq::new(g.len(), |p: int| p == 0)),
        ExpressionView::Symbol(_) => Ok(Seq::new(g.len(), |p: int| false)),
        ExpressionView::Commits(ids) => match first_missing(g, ids) {
            Some(id) => Err(IndexErrorView::NotFound(id)),
            None => Ok(Seq::new(g.len(), |p: int| is_one_of(g, ids, p))),
        },
        ExpressionView::Range { roots, heads, generation, parents_range } => if is_malformed(
            generation,
            parents_range,
        ) {
            Err(IndexErrorView::MalformedRange)
        } else {
            match expression_marks(g, *roots) {
                Err(error) => Err(error),
                Ok(r) => match expression_marks(g, *heads) {
                    Err(error) => Err(error),
                    Ok(h) => Ok(
                        Seq::new(
                            g.len(),
                            |p: int|
                                is_in_range(
                                    g,
                                    marked_positions(r, r.len() as int),
                                    marked_positions(h, h.len() as int),
                                    generation,
                                    parents_range,
                                    p,
                                ),
                        ),
                    ),
                },
            }
        },
        ExpressionView::Union(a, b) => match expression_marks(g, *a) {
            Err(error) => Err(error),
            Ok(x) => match expression_marks(g, *b) {
                Err(error) => Err(error),
                Ok(y) => Ok(Seq::new(g.len(), |p: int| x[p] || y[p])),
            },
        },
        ExpressionView::Intersection(a, b) => match expression_marks(g, *a) {
            Err(error) => Err(error),
            Ok(x) => match expression_marks(g, *b) {
                Err(error) => Err(error),
                Ok(y) => Ok(Seq::new(g.len(), |p: int| x[p] && y[p])),
            },
        },
    }
}

/// What a result of marks holds, as plain values.
pub open spec fn marks_view(marks: Result<Vec<bool>, IndexError>) -> Result<
    Seq<bool>,
    IndexErrorView,
> {
    match marks {
        Ok(m) => Ok(m@),
        Err(error) => Err(error@),
    }
}

/// The marks of an expression are as many as the entries.
pub proof fn lemma_expression_marks_len(g: Seq<EntryView>, e: ExpressionView)
    ensures
        expression_marks(g, e) is Ok ==> expression_marks(g, e)->Ok_0.len() == g.len(),
    decreases e,
{
    match e {
        ExpressionView::Range { roots, heads, generation, parents_range } => {
            lemma_expression_marks_len(g, *roots);
            lemma_expression_marks_len(g, *heads);
        },
        ExpressionView::Union(a, b) => {
            lemma_expression_marks_len(g, *a);
            lemma_expression_marks_len(g, *b);
        },
        ExpressionView::Intersection(a, b) => {
            lemma_expression_marks_len(g, *a);
            lemma_expression_marks_len(g, *b);
        },
        _ => {},
    }
}

/// The marked positions, in ascending order.
pub fn positions_of_marks(marks: &Vec<bool>) -> (positions: Vec<u32>)
    requires
        marks.len() <= u32::MAX,
    ensures
        as_ints(positions@) == marked_positions(marks@, marks.len() as int),
        forall|i: int| 0 <= i < positions.len() ==> (#[trigger] positions@[i]) < marks.len(),
{
    let mut positions: Vec<u32> = Vec::new();
    let mut p: usize = 0;
    assert(as_ints(positions@) =~= Seq::<int>::empty());
    while p < marks.len()
        invariant
            marks.len() <= u32::MAX,
            p <= marks.len(),
            as_ints(positions@) == marked_positions(marks@, p as int),
            forall|i: int| 0 <= i < positions.len() ==> (#[trigger] positions@[i]) < marks.len(),
        decreases marks.len() - p,
    {
        let ghost before = as_ints(positions@);
        if marks[p] {
            positions.push(p as u32);
            assert(as_ints(positions@) =~= before.push(p as int));
        }
        p += 1;
    }
    positions
}

/// Marks the entries that an expression names.
pub fn evaluate_marks(chain: &SegmentChain, expression: &RevsetExpression) -> (marks: Result<
    Vec<bool>,
    IndexError,
>)
    requires
        chain.wf(),
    ensures
        marks_view(marks) == expression_marks(chain@, expression@),
    decreases expression,
{
    let ghost g = chain@;
    let n: u32 = chain.num_commits();
    match expression {
        RevsetExpression::Nothing => {
            let marks = cleared_marks(n);
            assert(marks@ =~= Seq::new(g.len(), |p: int| false));
            Ok(marks)
        },
        RevsetExpression::Symbol(_) => {
            let marks = cleared_marks(n);
            assert(marks@ =~= Seq::new(g.len(), |p: int| false));
            Ok(marks)
        },
        RevsetExpression::Root => {
            let mut marks = cleared_marks(n);
            marks.set(0, true);
            assert(marks@ =~= Seq::new(g.len(), |p: int| p == 0));
            Ok(marks)
        },
        RevsetExpression::Commits(ids) => {
            let positions = match chain.positions_of_ids(ids) {
                Ok(positions) => positions,
                Err(error) => {
                    return Err(error);
                },
            };
            let ghost wanted = id_views(ids@);
            assert(as_ints(positions@).len() == positions_of(g, wanted).len());
            let mut marks = cleared_marks(n);
            let mut i: usize = 0;
            while i < positions.len()
                invariant
                    n == g.len(),
                    marks.len() == n,
                    wanted == id_views(ids@),
                    i <= positions.len(),
                    positions.len() == wanted.len(),
                    as_ints(positions@) == positions_of(g, wanted),
                    forall|j: int| 0 <= j < positions.len() ==> (#[trigger] positions@[j]) < n,
                    forall|p: int|
                        0 <= p < n ==> marks@[p] == exists|j: int|
                            0 <= j < i && #[trigger] positions_of(g, wanted)[j] == p,
                decreases positions.len() - i,
            {
                let ghost before = marks@;
                let at: u32 = positions[i];
                assert(as_ints(positions@)[i as int] == at as int);
                marks.set(at as usize, true);
                proof {
                    assert forall|p: int| 0 <= p < n implies marks@[p] == exists|j: int|
                        0 <= j < i + 1 && #[trigger] positions_of(g, wanted)[j] == p by {
                        if before[p] {
                            let j = choose|j: int|
                                0 <= j < i && #[trigger] positions_of(g, wanted)[j] == p;
                            assert(j < i + 1);
                        }
                        if exists|j: int|
                            0 <= j < i + 1 && #[trigger] positions_of(g, wanted)[j] == p {
                            let j = choose|j: int|
                                0 <= j < i + 1 && #[trigger] positions_of(g, wanted)[j] == p;
                            if j < i {
                                assert(before[p]);
                            }
                        }
                        if p == at as int {
                            assert(positions_of(g, wanted)[i as int] == p);
                        }
                    }
                }
                i += 1;
            }
            assert(marks@ =~= Seq::new(g.len(), |p: int| is_one_of(g, wanted, p)));
            Ok(marks)
        },
        RevsetExpression::Range { roots, heads, generation, parents_range } => {
            if generation.start > generation.end || parents_range.start > parents_range.end {
                return Err(IndexError::MalformedRange);
            }
            let r = match evaluate_marks(chain, roots) {
                Ok(r) => r,
                Err(error) => {
                    return Err(error);
                },
            };
            let h = match evaluate_marks(chain, heads) {
                Ok(h) => h,
                Err(error) => {
                    return Err(error);
                },
            };
            proof {
                lemma_expression_marks_len(g, roots@);
                lemma_expression_marks_len(g, heads@);
            }
            let root_positions = positions_of_marks(&r);
            let head_positions = positions_of_marks(&h);
            let marks = chain.range_marks_for(
                &root_positions,
                &head_positions,
                generation,
                parents_range,
            );
            assert(marks@ =~= Seq::new(
                g.len(),
                |p: int|
                    is_in_range(
                        g,
                        marked_positions(r@, r@.len() as int),
                        marked_positions(h@, h@.len() as int),
                        *generation,
                        *parents_range,
                        p,
                    ),
            ));
            Ok(marks)
        },
        RevsetExpression::Union(a, b) => {
            let x = match evaluate_marks(chain, a) {
                Ok(x) => x,
                Err(error) => {
                    return Err(error);
                },
            };
            let y = match evaluate_marks(chain, b) {
                Ok(y) => y,
                Err(error) => {
                    return Err(error);
                },
            };
            proof {
                lemma_expression_marks_len(g, a@);
                lemma_expression_marks_len(g, b@);
            }
            let mut marks: Vec<bool> = Vec::new();
            let mut p: u32 = 0;
            while p < n
                invariant
                    n == g.len(),
                    x.len() == n,
                    y.len() == n,
                    p <= n,
                    marks.len() == p,
                    forall|q: int| 0 <= q < p ==> #[trigger] marks@[q] == (x@[q] || y@[q]),
                decreases n - p,
            {
                marks.push(x[p as usize] || y[p as usize]);
                p += 1;
            }
            assert(marks@ =~= Seq::new(g.len(), |q: int| x@[q] || y@[q]));
            Ok(marks)
        },
        RevsetExpression::Intersection(a, b) => {
            let x = match evaluate_marks(chain, a) {
                Ok(x) => x,
                Err(error) => {
                    return Err(error);
                },
            };
            let y = match evaluate_marks(chain, b) {
                Ok(y) => y,
                Err(error) => {
                    return Err(error);
                },
            };
            proof {
                lemma_expression_marks_len(g, a@);
                lemma_expression_marks_len(g, b@);
            }
            let mut marks: Vec<bool> = Vec::new();
            let mut p: u32 = 0;
            while p < n
                invariant
                    n == g.len(),
                    x.len() == n,
                    y.len() == n,
                    p <= n,
                    marks.len() == p,
                    forall|q: int| 0 <= q < p ==> #[trigger] marks@[q] == (x@[q] && y@[q]),
                decreases n - p,
            {
                marks.push(x[p as usize] && y[p as usize]);
                p += 1;
            }
            assert(marks@ =~= Seq::new(g.len(), |q: int| x@[q] && y@[q]));
            Ok(marks)
        },
    }
}

/// An evaluation error as plain values.
pub enum EvaluationErrorView {
    Resolution(ResolutionErrorView),
    Evaluation(IndexErrorView),
}

impl View for UserRevsetEvaluationError {
    type V = EvaluationErrorView;

    open spec fn view(&self) -> EvaluationErrorView {
        match self {
            UserRevsetEvaluationError::Resolution(error) => EvaluationErrorView::Resolution(error@),
            UserRevsetEvaluationError::Evaluation(error) => EvaluationErrorView::Evaluation(error@),
        }
    }
}

/// The commits that an expression of a user names, the latest first, or
/// the reason why it names none: a symbol that stands for nothing, or an
/// expression that the index cannot evaluate.
pub open spec fn evaluated(
    g: Seq<EntryView>,
    locals: Seq<LocalBookmark>,
    pairs: Seq<IdPairView>,
    e: ExpressionView,
) -> Result<Seq<Seq<u8>>, EvaluationErrorView> {
    match resolved_expression(e, locals, pairs) {
        Err(error) => Err(EvaluationErrorView::Resolution(error)),
        Ok(resolved) => match expression_marks(g, resolved) {
            Err(error) => Err(EvaluationErrorView::Evaluation(error)),
            Ok(marks) => Ok(marked_ids(g, marks)),
        },
    }
}

/// What a result of an evaluation holds, as plain values.
pub open spec fn evaluation_view(found: Result<Vec<CommitId>, UserRevsetEvaluationError>) -> Result<
    Seq<Seq<u8>>,
    EvaluationErrorView,
> {
    match found {
        Ok(ids) => Ok(id_views(ids@)),
        Err(error) => Err(error@),
    }
}

/// An expression of a user with what is needed to evaluate it.
#[derive(Debug)]
pub struct RevsetExpressionEvaluator<'a> {
    pub index: &'a ReadonlyIndex,
    pub resolver: SymbolResolver<'a>,
    pub expression: RevsetExpression,
}

impl<'a> RevsetExpressionEvaluator<'a> {
    /// The evaluator of an expression on an index, with the resolver of
    /// its symbols.
    pub fn new(index: &'a ReadonlyIndex, resolver: SymbolResolver<'a>, expression: RevsetExpression) -> (evaluator:
        Self)
        ensures
            evaluator.index == index,
            evaluator.resolver == resolver,
            evaluator.expression == expression,
    {
        RevsetExpressionEvaluator { index, resolver, expression }
    }

    /// The expression.
    pub fn expression(&self) -> (expression: &RevsetExpression)
        ensures
            *expression == self.expression,
    {
        &self.expression
    }

    /// Narrows the expression to the commits that `other` names too.
    pub fn intersect_with(&mut self, other: RevsetExpression)
        ensures
            final(self).index == old(self).index,
            final(self).resolver == old(self).resolver,
            final(self).expression@ == ExpressionView::Intersection(
                Box::new(old(self).expression@),
                Box::new(other@),
            ),
    {
        let mut taken = RevsetExpression::Nothing;
        core::mem::swap(&mut self.expression, &mut taken);
        self.expression = RevsetExpression::Intersection(Box::new(taken), Box::new(other));
    }

    /// The expression with every symbol replaced by its commits.
    pub fn resolve(&self) -> (resolved: Result<RevsetExpression, RevsetResolutionError>)
        ensures
            expression_result_view(resolved) == resolved_expression(
                self.expression@,
                self.resolver.view.local_bookmarks@,
                self.resolver.change_ids@,
            ),
    {
        self.resolver.resolve(&self.expression)
    }

    /// The commits that the expression names, the latest first.
    pub fn evaluate(&self) -> (commits: Result<Vec<CommitId>, UserRevsetEvaluationError>)
        requires
            self.index.wf(),
        ensures
            evaluation_view(commits) == evaluated(
                self.index@,
                self.resolver.view.local_bookmarks@,
                self.resolver.change_ids@,
                self.expression@,
            ),
    {
        let resolved = match self.resolve() {
            Ok(resolved) => resolved,
            Err(error) => {
                return Err(UserRevsetEvaluationError::Resolution(error));
            },
        };
        let marks = match evaluate_marks(&self.index.chain, &resolved) {
            Ok(marks) => marks,
            Err(error) => {
                return Err(UserRevsetEvaluationError::Evaluation(error));
            },
        };
        proof {
            lemma_expression_marks_len(self.index@, resolved@);
        }
        Ok(self.index.chain.ids_of_marked(&marks))
    }

    /// The ids of the commits that the expression names, the latest first.
    pub fn evaluate_to_commit_ids(&self) -> (commits: Result<
        Vec<CommitId>,
        UserRevsetEvaluationError,
    >)
        requires
            self.index.wf(),
        ensures
            evaluation_view(commits) == evaluated(
                self.index@,
                self.resolver.view.local_bookmarks@,
                self.resolver.change_ids@,
                self.expression@,
            ),
    {
        self.evaluate()
    }
}

/// A commit that an expression names: the commit as the store holds it,
/// or its id where the store lacks it.
#[derive(Debug)]
pub enum NamedCommit<'a> {
    Found(&'a StoredCommit),
    Missing(CommitId),
}

/// Whether the named commit is what the store holds for the id.
pub open spec fn is_commit_of(named: NamedCommit, objects: Seq<StoredCommit>, id: Seq<u8>) -> bool {
    match named {
        NamedCommit::Found(commit) => object_of(objects, id) == Some(*commit),
        NamedCommit::Missing(missing) => object_of(objects, id) is None && missing@ == id,
    }
}

impl<'a> RevsetExpressionEvaluator<'a> {
    /// The commits that the expression names, the latest first, each as
    /// the store holds it.
    pub fn evaluate_to_commits<'b>(&self, objects: &'b ObjectStore) -> (commits: Result<
        Vec<NamedCommit<'b>>,
        UserRevsetEvaluationError,
    >)
        requires
            self.index.wf(),
        ensures
            match evaluated(
                self.index@,
                self.resolver.view.local_bookmarks@,
                self.resolver.change_ids@,
                self.expression@,
            ) {
                Ok(ids) => {
                    &&& commits matches Ok(list)
                    &&& list.len() == ids.len()
                    &&& forall|i: int|
                        0 <= i < ids.len() ==> is_commit_of(
                            #[trigger] list@[i],
                            objects.commits@,
                            ids[i],
                        )
                },
                Err(error) => commits matches Err(e) && e@ == error,
            },
    {
        let ids = match self.evaluate() {
            Ok(ids) => ids,
            Err(error) => {
                return Err(error);
            },
        };
        let mut list: Vec<NamedCommit<'b>> = Vec::new();
        let mut i: usize = 0;
        while i < ids.len()
            invariant
                i <= ids.len(),
                list.len() == i,
                forall|j: int|
                    0 <= j < i ==> is_commit_of(
                        #[trigger] list@[j],
                        objects.commits@,
                        id_views(ids@)[j],
                    ),
            decreases ids.len() - i,
        {
            assert(id_views(ids@)[i as int] == ids@[i as int]@);
            match objects.get(&ids[i]) {
                Some(commit) => list.push(NamedCommit::Found(commit)),
                None => list.push(NamedCommit::Missing(ids[i].clone())),
            }
            i += 1;
        }
        Ok(list)
    }
}

/// The heads of the immutable commits: those that the user's expression
/// names, and the root.
pub fn parse_immutable_heads_expression(heads: RevsetExpression) -> (expression: RevsetExpression)
    ensures
        expression@ == ExpressionView::Union(Box::new(heads@), Box::new(ExpressionView::Root)),
{
    let root = RevsetExpression::Root;
    assert(expression_view(root) == ExpressionView::Root);
    RevsetExpression::Union(Box::new(heads), Box::new(root))
}

/// What the user is told where the alias of the trunk stands for nothing.
#[derive(Debug)]
pub struct TrunkWarning {
    pub warning: String,
    pub hint: String,
}

/// The warning for an alias of the trunk that cannot be resolved.
pub open spec fn trunk_warning_text(error: ResolutionErrorView) -> Seq<char> {
    "Failed to resolve `revset-aliases.trunk()`: "@ + resolution_error_text(error)
}

/// Warns where the alias of the trunk cannot be resolved.
pub fn warn_unresolvable_trunk(resolver: &SymbolResolver, trunk: &RevsetExpression) -> (warning:
    Option<TrunkWarning>)
    ensures
        match resolved_expression(
            trunk@,
            resolver.view.local_bookmarks@,
            resolver.change_ids@,
        ) {
            Ok(_) => warning is None,
            Err(error) => {
                &&& warning matches Some(w)
                &&& w.warning@ == trunk_warning_text(error)
                &&& w.hint@ == "Use `jj config edit --repo` to adjust the `trunk()` alias."@
            },
        },
{
    match resolver.resolve(trunk) {
        Ok(_) => None,
        Err(error) => {
            let mut warning = String::from_str("Failed to resolve `revset-aliases.trunk()`: ");
            let reason = error.to_text();
            warning.append(reason.as_str());
            Some(
                TrunkWarning {
                    warning,
                    hint: String::from_str(
                        "Use `jj config edit --repo` to adjust the `trunk()` alias.",
                    ),
                },
            )
        },
    }
}

} // verus!
