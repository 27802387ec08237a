//! The cached row-space projection of one session's fragment.
//!
//! A projection is built once and reused for the session's life. A publication patches a resident
//! projection instead, where it can: by extending it after a flush, which only appends extents, and
//! by rebasing it after a merge, which rewrites rows within its span but never the base.

use std::ops::Range;

use croaring::Bitmap;
use vstd::prelude::*;

use crate::bitmap;
use crate::bitmap::{bits, span};
use crate::row_space::{law_the_complement_is_the_base_image, Extent, RowSpace};
use crate::text::same;

verus! {

/// How a row projection was built. Every route returns the identical projection; only the work
/// differs.
#[derive(Clone, Copy, Debug, PartialEq, Eq, Structural)]
pub enum ProjectionRoute {
    /// The grant covers the whole entity domain and the mapping is a bijection onto its rows.
    WholeDomain,
    /// Every held entity is walked through the mapping.
    Walk,
    /// The images of the terms the session holds are unioned, and only the residual is walked.
    Split,
    /// The entities outside the grant are walked and subtracted from the row range.
    Complement,
}

impl ProjectionRoute {
    /// Every route, in the order of their positions.
    pub const ALL: [ProjectionRoute; 4] = [
        ProjectionRoute::WholeDomain,
        ProjectionRoute::Walk,
        ProjectionRoute::Split,
        ProjectionRoute::Complement,
    ];

    /// A route's position among the routes.
    pub open spec fn place(self) -> int {
        match self {
            ProjectionRoute::WholeDomain => 0,
            ProjectionRoute::Walk => 1,
            ProjectionRoute::Split => 2,
            ProjectionRoute::Complement => 3,
        }
    }

    /// This route's position in the list of every route.
    pub fn index(self) -> (index: usize)
        ensures
            index == self.place(),
            index < 4,
    {
        match self {
            ProjectionRoute::WholeDomain => 0,
            ProjectionRoute::Walk => 1,
            ProjectionRoute::Split => 2,
            ProjectionRoute::Complement => 3,
        }
    }

    /// The name this route is published under.
    pub open spec fn text(self) -> Seq<char> {
        match self {
            ProjectionRoute::WholeDomain => "whole_domain"@,
            ProjectionRoute::Walk => "walk"@,
            ProjectionRoute::Split => "split"@,
            ProjectionRoute::Complement => "complement"@,
        }
    }

    /// The name this route is published under.
    pub fn name(self) -> (name: &'static str)
        ensures
            name@ == self.text(),
    {
        match self {
            ProjectionRoute::WholeDomain => "whole_domain",
            ProjectionRoute::Walk => "walk",
            ProjectionRoute::Split => "split",
            ProjectionRoute::Complement => "complement",
        }
    }
}

/// The base rows of a term that a view holds an image of.
#[derive(Debug)]
pub struct TermImage {
    pub term: u32,
    pub rows: Bitmap,
}

/// What a row projection is built from, beside the row space it is built into.
#[derive(Debug)]
pub struct ProjectionInputs {
    /// The session's fragment, in entity space.
    pub fragment: Bitmap,
    /// The terms the session satisfies.
    pub satisfied: Vec<u32>,
    /// This view's term images, where the bundle carries them and they opened.
    pub images: Option<Vec<TermImage>>,
    /// The entities of the fragment that no kept image covers; `None` where the postings they come
    /// from cannot be read.
    pub residual: Option<Bitmap>,
    /// The cheapest route by the prices of the chooser's inputs; `None` where the postings those
    /// are priced from cannot be read.
    pub chosen: Option<ProjectionRoute>,
    /// A route to take instead of the chosen one.
    pub force: Option<ProjectionRoute>,
}

/// The postings a route prices or walks could not be read.
#[derive(Clone, Copy, Debug, PartialEq, Eq, Structural)]
pub struct PostingsUnread;

/// Whether a view holds an image of a term.
pub open spec fn keeps(images: Seq<TermImage>, term: u32) -> bool {
    exists|i: int| 0 <= i < images.len() && (#[trigger] images[i]).term == term
}

/// The rows of the images of the terms listed.
pub open spec fn union_of(images: Seq<TermImage>, terms: Seq<u32>) -> Set<u32> {
    Set::new(
        |row: u32|
            exists|i: int|
                0 <= i < images.len() && terms.contains((#[trigger] images[i]).term) && bits(
                    images[i].rows,
                ).contains(row),
    )
}

/// What the chooser prices routes from.
#[derive(Clone, Copy, Debug, PartialEq, Eq, Structural)]
pub struct ChooserInputs {
    /// The entities of the base's domain that the fragment holds.
    pub held: u64,
    /// The size of that domain.
    pub bound: u64,
    /// Whether a complement can be taken: the base records the rows it is a bijection onto.
    pub complement_valid: bool,
    /// Whether a split can be taken: the view holds an image of a term the session satisfies.
    pub unionable: bool,
}

impl ProjectionInputs {
    /// Whether the view holds an image of a term the session satisfies.
    pub open spec fn unionable(&self) -> bool {
        self.images matches Some(images) && exists|k: int|
            0 <= k < self.satisfied@.len() && keeps(images@, #[trigger] self.satisfied@[k])
    }

    /// Whether there is a domain to price against: an empty one, or one past what an entity can be,
    /// has none.
    pub open spec fn priced(&self, space: RowSpace) -> bool {
        0 < space.base@.len() <= 0x1_0000_0000
    }

    /// The route wanted: a forced one, else the whole domain where the fragment covers it, else the
    /// cheapest, which is the walk where there is nothing to price against.
    pub open spec fn wanted(&self, space: RowSpace) -> Option<ProjectionRoute> {
        match self.force {
            Some(forced) => Some(forced),
            None => if space.covered_by(bits(self.fragment)) {
                Some(ProjectionRoute::WholeDomain)
            } else if !self.priced(space) {
                Some(ProjectionRoute::Walk)
            } else {
                self.chosen
            },
        }
    }

    /// The route taken, where the postings it reads can be read: a wanted route with no answer
    /// walks.
    pub open spec fn taken(&self, space: RowSpace) -> Option<ProjectionRoute> {
        match self.wanted(space) {
            None => None,
            Some(ProjectionRoute::WholeDomain) => Some(
                if space.covered_by(bits(self.fragment)) {
                    ProjectionRoute::WholeDomain
                } else {
                    ProjectionRoute::Walk
                },
            ),
            Some(ProjectionRoute::Walk) => Some(ProjectionRoute::Walk),
            Some(ProjectionRoute::Split) => if !self.unionable() {
                Some(ProjectionRoute::Walk)
            } else if self.residual is Some {
                Some(ProjectionRoute::Split)
            } else {
                None
            },
            Some(ProjectionRoute::Complement) => Some(
                if space.dense {
                    ProjectionRoute::Complement
                } else {
                    ProjectionRoute::Walk
                },
            ),
        }
    }

    /// These inputs with a route fixed, or with none.
    pub open spec fn forced_to(&self, force: Option<ProjectionRoute>) -> ProjectionInputs {
        ProjectionInputs { force, ..*self }
    }

    /// The rows a route gives.
    pub open spec fn rows_by(&self, route: ProjectionRoute, space: RowSpace) -> Set<u32> {
        let above = space.extents_image(bits(self.fragment), 0);
        match route {
            ProjectionRoute::WholeDomain | ProjectionRoute::Walk => space.image(
                bits(self.fragment),
            ),
            ProjectionRoute::Split => union_of(self.images->0@, self.satisfied@).union(
                space.base_image(bits(self.residual->0)),
            ).union(above),
            ProjectionRoute::Complement => space.complement_image(bits(self.fragment)).union(above),
        }
    }

    /// Whether the images of the terms the session satisfies, and the rows of the residual, are
    /// together the base rows of the fragment.
    pub open spec fn splits(&self, space: RowSpace) -> bool {
        self.images is Some && self.residual is Some && union_of(
            self.images->0@,
            self.satisfied@,
        ).union(space.base_image(bits(self.residual->0))) == space.base_image(bits(self.fragment))
    }

    /// What the chooser prices routes from, where there is a domain to price against.
    pub fn price(&self, space: &RowSpace) -> (inputs: Option<ChooserInputs>)
        requires
            space.wf(),
        ensures
            inputs is Some <==> self.priced(*space),
            inputs matches Some(inputs) ==> {
                &&& inputs.held == bits(self.fragment).intersect(
                    span(0, space.base@.len() as int),
                ).len()
                &&& inputs.bound == space.base@.len()
                &&& inputs.complement_valid == space.dense
                &&& inputs.unionable == self.unionable()
            },
    {
        let bound: usize = space.base.len();
        if bound == 0 || bound as u64 > 0x1_0000_0000 {
            return None;
        }
        let last: u32 = (bound - 1) as u32;
        let held: u64 = bitmap::rank(&self.fragment, last);
        Some(
            ChooserInputs {
                held,
                bound: bound as u64,
                complement_valid: space.dense,
                unionable: self.can_union(),
            },
        )
    }

    /// Whether the view holds an image of a term the session satisfies.
    fn can_union(&self) -> (yes: bool)
        ensures
            yes == self.unionable(),
    {
        match &self.images {
            None => false,
            Some(images) => {
                let mut k: usize = 0;
                while k < self.satisfied.len()
                    invariant
                        k <= self.satisfied@.len(),
                        self.images == Some(*images),
                        forall|j: int|
                            0 <= j < k ==> !keeps(images@, #[trigger] self.satisfied@[j]),
                    decreases self.satisfied@.len() - k,
                {
                    if is_kept(images, self.satisfied[k]) {
                        assert(keeps(images@, self.satisfied@[k as int]));
                        return true;
                    }
                    k += 1;
                }
                false
            },
        }
    }
}

/// Whether a view holds an image of a term.
fn is_kept(images: &Vec<TermImage>, term: u32) -> (yes: bool)
    ensures
        yes == keeps(images@, term),
{
    let mut i: usize = 0;
    while i < images.len()
        invariant
            i <= images@.len(),
            forall|k: int| 0 <= k < i ==> (#[trigger] images@[k]).term != term,
        decreases images@.len() - i,
    {
        if images[i].term == term {
            assert(images@[i as int].term == term);
            return true;
        }
        i += 1;
    }
    false
}

/// Whether a list of terms holds a term.
fn lists_term(terms: &Vec<u32>, term: u32) -> (yes: bool)
    ensures
        yes == terms@.contains(term),
{
    let mut i: usize = 0;
    while i < terms.len()
        invariant
            i <= terms@.len(),
            forall|k: int| 0 <= k < i ==> terms@[k] != term,
        decreases terms@.len() - i,
    {
        if terms[i] == term {
            assert(terms@[i as int] == term);
            return true;
        }
        i += 1;
    }
    false
}

/// The rows of the images of the terms listed.
fn union(images: &Vec<TermImage>, terms: &Vec<u32>) -> (rows: Bitmap)
    ensures
        bits(rows) == union_of(images@, terms@),
{
    let mut rows = bitmap::empty();
    let mut i: usize = 0;
    proof {
        assert(bits(rows) =~= union_of(images@.take(0), terms@));
    }
    while i < images.len()
        invariant
            i <= images@.len(),
            bits(rows) == union_of(images@.take(i as int), terms@),
        decreases images@.len() - i,
    {
        let ghost before = bits(rows);
        if lists_term(terms, images[i].term) {
            bitmap::union_with(&mut rows, &images[i].rows);
        }
        proof {
            let was = images@.take(i as int);
            let now = images@.take(i + 1);
            assert forall|row: u32| union_of(now, terms@).contains(row) == bits(rows).contains(
                row,
            ) by {
                if union_of(now, terms@).contains(row) {
                    let k = choose|k: int|
                        0 <= k < now.len() && terms@.contains((#[trigger] now[k]).term) && bits(
                            now[k].rows,
                        ).contains(row);
                    if k < i {
                        assert(was[k] == now[k]);
                        assert(before.contains(row));
                    }
                }
                if before.contains(row) {
                    let k = choose|k: int|
                        0 <= k < was.len() && terms@.contains((#[trigger] was[k]).term) && bits(
                            was[k].rows,
                        ).contains(row);
                    assert(now[k] == was[k]);
                }
                if terms@.contains(images@[i as int].term) && bits(
                    images@[i as int].rows,
                ).contains(row) {
                    assert(now[i as int] == images@[i as int]);
                }
            }
            assert(bits(rows) =~= union_of(now, terms@));
        }
        i += 1;
    }
    assert(images@.take(i as int) =~= images@);
    rows
}

/// A cached row-space projection of one fragment.
#[derive(Debug)]
pub struct RowProjection {
    pub rows: Bitmap,
    /// How many of the view's extents this projection covers.
    pub extents_covered: usize,
    /// The id of the last extent covered; none when only the base is. Segment ids are never reused.
    pub boundary_seg_id: Option<String>,
    /// The base's row count at construction: no flush or merge moves a row below it.
    pub base_rows: u32,
    /// How many rows it holds.
    pub cardinality: u64,
    /// Whether it was built over a row space, rather than from rows alone.
    pub over_space: bool,
}

/// The id of the last extent, where there is one.
pub open spec fn last_seg(extents: Seq<Extent>) -> Option<Seq<char>> {
    if extents.len() == 0 {
        None
    } else {
        Some(extents.last().seg_id@)
    }
}

impl RowProjection {
    /// The count is of the rows.
    pub open spec fn wf(&self) -> bool {
        self.cardinality == bits(self.rows).len()
    }

    /// The id of the last extent covered.
    pub open spec fn boundary(&self) -> Option<Seq<char>> {
        match self.boundary_seg_id {
            Some(seg_id) => Some(seg_id@),
            None => None,
        }
    }

    /// Whether this is a projection of some rows over a row space.
    pub open spec fn spans(&self, rows: Set<u32>, space: RowSpace) -> bool {
        &&& self.wf()
        &&& bits(self.rows) == rows
        &&& self.extents_covered == space.extents@.len()
        &&& self.boundary() == last_seg(space.extents@)
        &&& self.base_rows == space.base_rows
        &&& self.over_space
    }

    /// Project a fragment into a view's row space, by whichever route costs least, and say which
    /// route that was.
    pub fn new(inputs: &ProjectionInputs, space: &RowSpace) -> (out: Result<
        (RowProjection, ProjectionRoute),
        PostingsUnread,
    >)
        requires
            space.wf(),
        ensures
            out is Ok <==> inputs.taken(*space) is Some,
            out matches Ok((projection, route)) ==> {
                &&& inputs.taken(*space) == Some(route)
                &&& projection.spans(inputs.rows_by(route, *space), *space)
            },
    {
        let whole_domain = space.whole_domain(&inputs.fragment);
        let wanted: ProjectionRoute = match inputs.force {
            Some(forced) => forced,
            None => if whole_domain {
                ProjectionRoute::WholeDomain
            } else {
                match inputs.price(space) {
                    None => ProjectionRoute::Walk,
                    Some(_) => match inputs.chosen {
                        Some(chosen) => chosen,
                        None => return Err(PostingsUnread),
                    },
                }
            },
        };
        match wanted {
            ProjectionRoute::WholeDomain => {
                let route: ProjectionRoute = if whole_domain {
                    ProjectionRoute::WholeDomain
                } else {
                    ProjectionRoute::Walk
                };
                Ok((RowProjection::walk(&inputs.fragment, space), route))
            },
            ProjectionRoute::Walk => Ok(
                (RowProjection::walk(&inputs.fragment, space), ProjectionRoute::Walk),
            ),
            ProjectionRoute::Split => {
                if !inputs.can_union() {
                    return Ok(
                        (RowProjection::walk(&inputs.fragment, space), ProjectionRoute::Walk),
                    );
                }
                match &inputs.images {
                    Some(images) => match &inputs.residual {
                        Some(residual) => {
                            let mut rows = union(images, &inputs.satisfied);
                            let walked = space.project_base(residual);
                            bitmap::union_with(&mut rows, &walked);
                            let above = space.project_extents_from(&inputs.fragment, 0);
                            bitmap::union_with(&mut rows, &above);
                            Ok((RowProjection::over(rows, space), ProjectionRoute::Split))
                        },
                        None => Err(PostingsUnread),
                    },
                    None => Ok((RowProjection::walk(&inputs.fragment, space), ProjectionRoute::Walk)),
                }
            },
            ProjectionRoute::Complement => match space.project_complement_base(&inputs.fragment) {
                Some(mut rows) => {
                    let above = space.project_extents_from(&inputs.fragment, 0);
                    bitmap::union_with(&mut rows, &above);
                    Ok((RowProjection::over(rows, space), ProjectionRoute::Complement))
                },
                None => Ok((RowProjection::walk(&inputs.fragment, space), ProjectionRoute::Walk)),
            },
        }
    }

    /// The walk of a fragment through a row space.
    pub fn walk(fragment: &Bitmap, space: &RowSpace) -> (projection: RowProjection)
        requires
            space.wf(),
        ensures
            projection.spans(space.image(bits(*fragment)), *space),
    {
        let rows = space.project(fragment);
        RowProjection::over(rows, space)
    }

    /// Whether a row space's extents are ones this can be carried onto: any, where it was built
    /// over a row space, and otherwise none.
    pub open spec fn carries_onto(&self, space: RowSpace) -> bool {
        self.over_space || space.extents@.len() == 0
    }

    /// Whether a row space extends the one this was built over, rather than permuting it. Rows
    /// alone cover no extents, so they extend only to a row space with none.
    pub open spec fn extends(&self, space: RowSpace) -> bool {
        &&& self.carries_onto(space)
        &&& self.extents_covered <= space.extents@.len()
        &&& match self.boundary() {
            None => self.extents_covered == 0,
            Some(seg_id) => self.extents_covered > 0 && space.extents@[self.extents_covered
                - 1].seg_id@ == seg_id,
        }
    }

    /// Whether a row space extends the one this was built over, rather than permuting it.
    pub fn extends_to(&self, space: &RowSpace) -> (yes: bool)
        ensures
            yes == self.extends(*space),
    {
        if space.extents.len() < self.extents_covered || (!self.over_space && space.extents.len()
            > 0) {
            return false;
        }
        match &self.boundary_seg_id {
            None => self.extents_covered == 0,
            Some(seg_id) => self.extents_covered > 0 && same(
                space.extents[self.extents_covered - 1].seg_id.as_str(),
                seg_id.as_str(),
            ),
        }
    }

    /// This projection extended to a row space, adding only the extents it does not cover.
    pub fn extend(&self, fragment: &Bitmap, space: &RowSpace) -> (projection: RowProjection)
        requires
            space.wf(),
        ensures
            projection.spans(
                bits(self.rows).union(
                    space.extents_image(bits(*fragment), self.extents_covered as int),
                ),
                *space,
            ),
    {
        let mut rows = bitmap::copy(&self.rows);
        let above = space.project_extents_from(fragment, self.extents_covered);
        bitmap::union_with(&mut rows, &above);
        RowProjection::over(rows, space)
    }

    /// Whether the base this projection was built over is the one a row space addresses. Rows alone
    /// are over no base, so they rebase only onto a row space with no row of a base or an extent.
    pub open spec fn rebases(&self, space: RowSpace) -> bool {
        &&& self.carries_onto(space)
        &&& space.base_rows == self.base_rows
    }

    /// Whether the base this projection was built over is the one a row space addresses.
    pub fn can_rebase_extents(&self, space: &RowSpace) -> (yes: bool)
        ensures
            yes == self.rebases(*space),
    {
        (self.over_space || space.extents.len() == 0) && space.base_rows == self.base_rows
    }

    /// This projection rebased onto a row space: the base kept, every extent projected again.
    pub fn rebase_extents(&self, fragment: &Bitmap, space: &RowSpace) -> (projection: RowProjection)
        requires
            space.wf(),
        ensures
            projection.spans(
                bits(self.rows).intersect(span(0, self.base_rows as int)).union(
                    space.extents_image(bits(*fragment), 0),
                ),
                *space,
            ),
    {
        let mut rows = bitmap::copy(&self.rows);
        bitmap::remove_range(&mut rows, self.base_rows, u32::MAX);
        let above = space.project_extents_from(fragment, 0);
        bitmap::union_with(&mut rows, &above);
        assert(bits(rows) =~= bits(self.rows).intersect(span(0, self.base_rows as int)).union(
            space.extents_image(bits(*fragment), 0),
        ));
        RowProjection::over(rows, space)
    }

    /// A projection of rows over a row space.
    fn over(rows: Bitmap, space: &RowSpace) -> (projection: RowProjection)
        ensures
            projection.spans(bits(rows), *space),
    {
        let count: usize = space.extents.len();
        let boundary: Option<String> = if count == 0 {
            None
        } else {
            Some(String::from_str(space.extents[count - 1].seg_id.as_str()))
        };
        RowProjection::covering(rows, count, boundary, space.base_rows, true)
    }

    /// A projection of rows with the coverage it claims.
    fn covering(
        rows: Bitmap,
        extents_covered: usize,
        boundary_seg_id: Option<String>,
        base_rows: u32,
        over_space: bool,
    ) -> (projection: RowProjection)
        ensures
            projection.wf(),
            bits(projection.rows) == bits(rows),
            projection.extents_covered == extents_covered,
            projection.boundary_seg_id == boundary_seg_id,
            projection.base_rows == base_rows,
            projection.over_space == over_space,
    {
        let mut rows = rows;
        bitmap::run_optimize(&mut rows);
        let cardinality: u64 = bitmap::cardinality(&rows);
        RowProjection { rows, extents_covered, boundary_seg_id, base_rows, cardinality, over_space }
    }

    /// A projection of rows that covers no extents.
    pub fn from_rows(rows: Bitmap) -> (projection: RowProjection)
        ensures
            projection.wf(),
            bits(projection.rows) == bits(rows),
            projection.extents_covered == 0,
            projection.boundary() is None,
            projection.base_rows == 0,
            !projection.over_space,
    {
        RowProjection::covering(rows, 0, None, 0, false)
    }

    /// How many rows the projection holds.
    pub fn cardinality(&self) -> (count: u64)
        requires
            self.wf(),
        ensures
            count == bits(self.rows).len(),
    {
        self.cardinality
    }

    /// The projection's rows.
    pub fn bitmap(&self) -> (rows: &Bitmap)
        ensures
            *rows == self.rows,
    {
        &self.rows
    }

    /// Whether the projection holds a row.
    pub fn contains(&self, row: u32) -> (yes: bool)
        ensures
            yes == bits(self.rows).contains(row),
    {
        bitmap::contains(&self.rows, row)
    }

    /// How many rows of a range the projection holds.
    pub fn range_cardinality(&self, r: Range<u32>) -> (count: u64)
        ensures
            count == bits(self.rows).intersect(span(r.start as int, r.end as int)).len(),
    {
        bitmap::range_cardinality(&self.rows, r.start, r.end)
    }
}

/// The per-route build counters, and the route a build must take where one has been fixed.
#[derive(Debug)]
pub struct ProjectionRoutes {
    pub counts: [u64; 4],
    pub forced: Option<ProjectionRoute>,
}

/// The counters after a build by a route.
pub open spec fn counted(counts: Seq<u64>, route: ProjectionRoute) -> Seq<u64> {
    counts.update(route.place(), ((counts[route.place()] + 1) % 0x1_0000_0000_0000_0000) as u64)
}

impl Default for ProjectionRoutes {
    fn default() -> (routes: ProjectionRoutes)
        ensures
            routes.counts@ == seq![0u64, 0u64, 0u64, 0u64],
            routes.forced is None,
    {
        let counts: [u64; 4] = [0, 0, 0, 0];
        assert(counts@ =~= seq![0u64, 0u64, 0u64, 0u64]);
        ProjectionRoutes { counts, forced: None }
    }
}

impl ProjectionRoutes {
    /// Builds so far, in the order of the routes.
    pub fn counts(&self) -> (counts: [u64; 4])
        ensures
            counts == self.counts,
    {
        self.counts
    }

    /// The route every build must take, where one has been fixed.
    pub fn forced(&self) -> (route: Option<ProjectionRoute>)
        ensures
            route == self.forced,
    {
        self.forced
    }

    /// Fix the route every build takes, or return to the chosen one.
    pub fn force(&mut self, route: Option<ProjectionRoute>)
        ensures
            *final(self) == (ProjectionRoutes { forced: route, ..*old(self) }),
    {
        self.forced = route;
    }

    /// Build a projection and count the route it took. One whose postings cannot be read is built
    /// by the walk instead, and counted as a walk.
    pub fn build(&mut self, inputs: &ProjectionInputs, space: &RowSpace) -> (projection:
        RowProjection)
        requires
            space.wf(),
        ensures
            final(self).forced == old(self).forced,
            match inputs.taken(*space) {
                Some(route) => {
                    &&& projection.spans(inputs.rows_by(route, *space), *space)
                    &&& final(self).counts@ == counted(old(self).counts@, route)
                },
                None => {
                    &&& projection.spans(space.image(bits(inputs.fragment)), *space)
                    &&& final(self).counts@ == counted(old(self).counts@, ProjectionRoute::Walk)
                },
            },
    {
        let (projection, route): (RowProjection, ProjectionRoute) = match RowProjection::new(
            inputs,
            space,
        ) {
            Ok(built) => built,
            Err(_) => (RowProjection::walk(&inputs.fragment, space), ProjectionRoute::Walk),
        };
        let at: usize = route.index();
        let count: u64 = self.counts[at];
        self.counts[at] = count.wrapping_add(1);
        projection
    }
}

/// Every route gives the identical projection: the fragment's rows.
pub proof fn law_every_route_gives_the_same_rows(
    inputs: ProjectionInputs,
    space: RowSpace,
    route: ProjectionRoute,
)
    requires
        space.wf(),
        inputs.taken(space) == Some(route),
        route == ProjectionRoute::Split ==> inputs.splits(space),
    ensures
        inputs.rows_by(route, space) == space.image(bits(inputs.fragment)),
{
    if route == ProjectionRoute::Complement {
        law_the_complement_is_the_base_image(space, bits(inputs.fragment));
    }
    assert(inputs.rows_by(route, space) =~= space.image(bits(inputs.fragment)));
}

/// Fixing the route changes the work and never the rows: two builds of one fragment that differ in
/// the route alone give projections of the same rows, which are those of a walk. Where the images
/// are united, they and the residual are together the fragment's.
pub proof fn law_fixing_the_route_changes_no_row(
    inputs: ProjectionInputs,
    force: Option<ProjectionRoute>,
    space: RowSpace,
    one: RowProjection,
    other: RowProjection,
)
    requires
        space.wf(),
        inputs.unionable() ==> inputs.residual is None || inputs.splits(space),
        inputs.taken(space) is Some,
        one.spans(inputs.rows_by(inputs.taken(space)->0, space), space),
        inputs.forced_to(force).taken(space) is Some,
        other.spans(
            inputs.forced_to(force).rows_by(inputs.forced_to(force).taken(space)->0, space),
            space,
        ),
    ensures
        bits(one.rows) == space.image(bits(inputs.fragment)),
        bits(other.rows) == bits(one.rows),
        other.cardinality == one.cardinality,
{
    let fixed = inputs.forced_to(force);
    law_every_route_gives_the_same_rows(inputs, space, inputs.taken(space)->0);
    law_every_route_gives_the_same_rows(fixed, space, fixed.taken(space)->0);
}

/// Rows alone cover no extents: where they extend to a row space, or rebase onto it, it has none.
pub proof fn law_rows_alone_are_carried_onto_no_extent(projection: RowProjection, space: RowSpace)
    requires
        !projection.over_space,
        projection.extends(space) || projection.rebases(space),
    ensures
        space.extents@.len() == 0,
{
}

/// Whether a row space appends extents to another and leaves the rest as it is.
pub open spec fn appends(old_space: RowSpace, new_space: RowSpace) -> bool {
    &&& new_space.base@ == old_space.base@
    &&& new_space.base_rows == old_space.base_rows
    &&& old_space.extents@.len() <= new_space.extents@.len()
    &&& new_space.extents@.take(old_space.extents@.len() as int) == old_space.extents@
}

/// A flush only appends extents, so extending a projection of a fragment to the row space after it
/// gives what a walk of that row space gives.
pub proof fn law_extending_is_walking(
    projection: RowProjection,
    fragment: Set<u32>,
    before: RowSpace,
    after: RowSpace,
)
    requires
        projection.spans(before.image(fragment), before),
        appends(before, after),
    ensures
        projection.extends(after),
        bits(projection.rows).union(
            after.extents_image(fragment, projection.extents_covered as int),
        ) == after.image(fragment),
{
    let n = before.extents@.len() as int;
    assert forall|k: int| 0 <= k < n implies (#[trigger] after.extents@[k]) == before.extents@[k] by {
        assert(after.extents@.take(n)[k] == after.extents@[k]);
    }
    assert forall|row: u32| before.places(fragment, row) == after.places(fragment, row) by {
        if before.places(fragment, row) {
            let e = choose|e: u32| #[trigger]
                fragment.contains(e) && e < before.base@.len() && before.base@[e as int] == Some(row);
            assert(fragment.contains(e) && after.base@[e as int] == Some(row));
        }
        if after.places(fragment, row) {
            let e = choose|e: u32| #[trigger]
                fragment.contains(e) && e < after.base@.len() && after.base@[e as int] == Some(row);
            assert(fragment.contains(e) && before.base@[e as int] == Some(row));
        }
    }
    let grown = bits(projection.rows).union(after.extents_image(fragment, n));
    assert forall|row: u32| grown.contains(row) == after.image(fragment).contains(row) by {
        if before.extents_image(fragment, 0).contains(row) {
            let k = choose|k: int|
                0 <= k < before.extents@.len() && (#[trigger] before.extents@[k]).places(
                    fragment,
                    row,
                );
            assert(after.extents@[k].places(fragment, row));
        }
        if after.extents_image(fragment, 0).contains(row) {
            let k = choose|k: int|
                0 <= k < after.extents@.len() && (#[trigger] after.extents@[k]).places(
                    fragment,
                    row,
                );
            if k < n {
                assert(before.extents@[k].places(fragment, row));
            }
        }
        if after.extents_image(fragment, n).contains(row) {
            let k = choose|k: int|
                n <= k < after.extents@.len() && (#[trigger] after.extents@[k]).places(
                    fragment,
                    row,
                );
            assert(0 <= k && after.extents@[k].places(fragment, row));
        }
    }
    assert(grown =~= after.image(fragment));
    if n > 0 {
        assert(after.extents@[n - 1] == before.extents@[n - 1]);
    }
}

/// A merge never rewrites the base, so rebasing a projection of a fragment onto the row space after
/// it gives what a walk of that row space gives.
pub proof fn law_rebasing_is_walking(
    projection: RowProjection,
    fragment: Set<u32>,
    before: RowSpace,
    after: RowSpace,
)
    requires
        before.wf(),
        projection.spans(before.image(fragment), before),
        after.base@ == before.base@,
        after.base_rows == before.base_rows,
    ensures
        bits(projection.rows).intersect(span(0, projection.base_rows as int)).union(
            after.extents_image(fragment, 0),
        ) == after.image(fragment),
{
    let kept = bits(projection.rows).intersect(span(0, projection.base_rows as int));
    assert forall|row: u32| kept.contains(row) == after.base_image(fragment).contains(row) by {
        if before.places(fragment, row) {
            let e = choose|e: u32| #[trigger]
                fragment.contains(e) && e < before.base@.len() && before.base@[e as int] == Some(row);
            assert(before.base@[e as int] is Some);
            assert(fragment.contains(e) && after.base@[e as int] == Some(row));
        }
        if after.places(fragment, row) {
            let e = choose|e: u32| #[trigger]
                fragment.contains(e) && e < after.base@.len() && after.base@[e as int] == Some(row);
            assert(fragment.contains(e) && before.base@[e as int] == Some(row));
        }
        if before.extents_image(fragment, 0).contains(row) {
            let k = choose|k: int|
                0 <= k < before.extents@.len() && (#[trigger] before.extents@[k]).places(
                    fragment,
                    row,
                );
            assert(before.base_rows <= before.extents@[k].row_base);
        }
    }
    assert(kept =~= after.base_image(fragment));
}

/// A route is taken only where it can serve: the whole domain only where the fragment holds every
/// entity of a dense base, the complement only over a dense base, and the split only where an image
/// of a satisfied term is kept beside a residual. A forced route that can serve is taken, and one
/// that cannot gives way to the walk; only a split without its residual fails.
pub proof fn law_a_route_is_taken_only_where_it_can_serve(inputs: ProjectionInputs, space: RowSpace)
    ensures
        ({
            let taken = inputs.taken(space);
            let covered = space.dense && forall|e: u32|
                e < space.base@.len() ==> #[trigger] bits(inputs.fragment).contains(e);
            &&& taken == Some(ProjectionRoute::WholeDomain) ==> covered
            &&& taken == Some(ProjectionRoute::Complement) ==> space.dense
            &&& taken == Some(ProjectionRoute::Split) ==> inputs.images is Some
                && inputs.residual is Some && exists|i: int|
                0 <= i < inputs.images->0@.len() && inputs.satisfied@.contains(
                    (#[trigger] inputs.images->0@[i]).term,
                )
            &&& inputs.force == Some(ProjectionRoute::Walk) ==> taken == Some(ProjectionRoute::Walk)
            &&& inputs.force == Some(ProjectionRoute::WholeDomain) ==> taken == Some(
                if covered {
                    ProjectionRoute::WholeDomain
                } else {
                    ProjectionRoute::Walk
                },
            )
            &&& inputs.force == Some(ProjectionRoute::Complement) ==> taken == Some(
                if space.dense {
                    ProjectionRoute::Complement
                } else {
                    ProjectionRoute::Walk
                },
            )
            &&& inputs.force is None && covered ==> taken == Some(ProjectionRoute::WholeDomain)
            &&& inputs.force is None && !covered && space.base@.len() == 0 ==> taken == Some(
                ProjectionRoute::Walk,
            )
            &&& taken is None && (inputs.force is Some || inputs.chosen is Some)
                ==> inputs.residual is None
        }),
{
    if inputs.taken(space) == Some(ProjectionRoute::Split) {
        let images = inputs.images->0@;
        let k = choose|k: int|
            0 <= k < inputs.satisfied@.len() && keeps(images, #[trigger] inputs.satisfied@[k]);
        let i = choose|i: int|
            0 <= i < images.len() && (#[trigger] images[i]).term == inputs.satisfied@[k];
        assert(inputs.satisfied@.contains(images[i].term));
    }
}

/// A projection extends onto a row space exactly where it was taken over a row space, or the space
/// has no extents, and the last extent it covers is still where it was: there are no fewer extents,
/// and the one at its end has the same segment, or it covered none.
pub proof fn law_a_projection_extends_where_its_last_extent_stands(
    projection: RowProjection,
    space: RowSpace,
)
    ensures
        projection.extends(space) <==> {
            &&& projection.over_space || space.extents@.len() == 0
            &&& projection.extents_covered <= space.extents@.len()
            &&& projection.boundary_seg_id is None ==> projection.extents_covered == 0
            &&& projection.boundary_seg_id matches Some(seg_id) ==> projection.extents_covered > 0
                && space.extents@[projection.extents_covered - 1].seg_id@ == seg_id@
        },
        projection.rebases(space) <==> {
            &&& projection.over_space || space.extents@.len() == 0
            &&& projection.base_rows == space.base_rows
        },
{
}

} // verus!
