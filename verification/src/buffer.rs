//! The columnar path store and the algorithms that mutate it: stream
//! ingestion and in-place subpath reversal.
//!
//! A control-point reference is a tagged optional index rather than a
//! reserved sentinel value, so no control-point count can ever collide with
//! a "no control point" marker.

use vstd::prelude::*;

use crate::geometry::{Point, QuadraticEvent};

verus! {

/// Describes a path endpoint in a path buffer.
///
/// The control-point reference denotes the control point of the edge
/// *arriving at* this endpoint; an endpoint reached by a straight edge, and
/// a subpath's first endpoint, carry `None`.
#[derive(Clone, Copy, Debug, PartialEq, Eq, Structural)]
pub struct Endpoint {
    /// The 2D position of the endpoint.
    pub position: Point,
    /// The index into the control-point sequence of the control point of
    /// the edge arriving at this endpoint, or `None` for a line arrival.
    pub control_point_index: Option<usize>,
    /// The index of the subpath that this endpoint belongs to.
    pub subpath_index: usize,
}

/// Stores the endpoint indices of one subpath.
#[derive(Clone, Copy, Debug, PartialEq, Eq, Structural)]
pub struct Subpath {
    /// The index of the first endpoint that makes up this subpath.
    pub first_endpoint_index: usize,
    /// One plus the index of the last endpoint that makes up this subpath.
    pub last_endpoint_index: usize,
    /// Whether the subpath is closed (i.e. fully connected).
    pub closed: bool,
}

impl Subpath {
    /// Returns the endpoint indices as a `Range`.
    pub fn range(self) -> (r: core::ops::Range<usize>)
        ensures
            r.start == self.first_endpoint_index,
            r.end == self.last_endpoint_index,
    {
        self.first_endpoint_index..self.last_endpoint_index
    }
}

/// The mathematical content of an [`Endpoint`], with unbounded indices.
pub struct EndpointModel {
    pub position: Point,
    pub control_point_index: Option<int>,
    pub subpath_index: int,
}

/// The mathematical content of a [`Subpath`], with unbounded indices.
pub struct SubpathModel {
    pub first_endpoint_index: int,
    pub last_endpoint_index: int,
    pub closed: bool,
}

impl View for Endpoint {
    type V = EndpointModel;

    open spec fn view(&self) -> EndpointModel {
        EndpointModel {
            position: self.position,
            control_point_index: match self.control_point_index {
                Option::Some(ci) => Option::Some(ci as int),
                Option::None => Option::None,
            },
            subpath_index: self.subpath_index as int,
        }
    }
}

impl View for Subpath {
    type V = SubpathModel;

    open spec fn view(&self) -> SubpathModel {
        SubpathModel {
            first_endpoint_index: self.first_endpoint_index as int,
            last_endpoint_index: self.last_endpoint_index as int,
            closed: self.closed,
        }
    }
}

/// Holds one or more paths in memory in an efficient form.
///
/// The three sequences are exposed for direct read-only traversal by
/// consumers that walk raw endpoints; they are mutated only by further
/// ingestion (append) or by subpath reversal (in place).
#[derive(Clone, Debug)]
pub struct PathBuffer {
    /// All endpoints of all subpaths.
    pub endpoints: Vec<Endpoint>,
    /// All control points of all subpaths.
    pub control_points: Vec<Point>,
    /// A series of ranges defining each subpath.
    pub subpaths: Vec<Subpath>,
}

/// The mathematical content of a [`PathBuffer`]: its three sequences.
pub struct PathModel {
    pub endpoints: Seq<EndpointModel>,
    pub control_points: Seq<Point>,
    pub subpaths: Seq<SubpathModel>,
}

impl View for PathBuffer {
    type V = PathModel;

    open spec fn view(&self) -> PathModel {
        PathModel {
            endpoints: self.endpoints@.map_values(|e: Endpoint| e@),
            control_points: self.control_points@,
            subpaths: self.subpaths@.map_values(|sp: Subpath| sp@),
        }
    }
}

impl PathModel {
    /// The prefix of the endpoint sequence already covered by finalized
    /// subpaths; endpoints beyond it belong to a subpath still in progress.
    pub open spec fn covered_len(self) -> int {
        if self.subpaths.len() == 0 {
            0
        } else {
            self.subpaths.last().last_endpoint_index
        }
    }

    /// Where subpath `j` must begin for the ranges to tile the endpoint
    /// sequence: at the end of its predecessor, or at zero for the first.
    pub open spec fn expected_start(self, j: int) -> int {
        if j == 0 {
            0
        } else {
            self.subpaths[j - 1].last_endpoint_index
        }
    }

    /// Subpath ranges exactly partition a prefix of the endpoint sequence:
    /// contiguous, strictly increasing, none empty.
    pub open spec fn subpaths_partition(self) -> bool {
        forall|j: int|
            0 <= j < self.subpaths.len() ==> {
                let sp = #[trigger] self.subpaths[j];
                &&& sp.first_endpoint_index < sp.last_endpoint_index
                &&& sp.first_endpoint_index == self.expected_start(j)
            }
    }

    /// The control-point reference of endpoint `i` is in bounds.
    pub open spec fn endpoint_ref_ok(self, i: int) -> bool {
        match self.endpoints[i].control_point_index {
            Option::Some(ci) => 0 <= ci < self.control_points.len(),
            Option::None => true,
        }
    }

    /// Subpath `j` lies within the endpoint sequence, owns exactly the
    /// endpoints of its range, and, when closed, ends on a materialized
    /// duplicate of its first endpoint's position.
    pub open spec fn subpath_content_ok(self, j: int) -> bool {
        let sp = self.subpaths[j];
        &&& 0 <= sp.first_endpoint_index
        &&& sp.first_endpoint_index <= sp.last_endpoint_index
        &&& sp.last_endpoint_index <= self.endpoints.len()
        &&& forall|i: int|
            sp.first_endpoint_index <= i < sp.last_endpoint_index
                ==> (#[trigger] self.endpoints[i]).subpath_index == j
        &&& sp.closed ==> self.endpoints[sp.last_endpoint_index - 1].position
            == self.endpoints[sp.first_endpoint_index].position
    }

    /// Well-formedness during ingestion: the finalized subpaths cover
    /// exactly `[0, first)`, and the pending endpoints `[first, len)` are
    /// tagged with the ordinal the next finalized subpath will get.
    pub open spec fn wf_upto(self, first: int) -> bool {
        &&& 0 <= first <= self.endpoints.len()
        &&& self.covered_len() == first
        &&& self.subpaths_partition()
        &&& forall|j: int| 0 <= j < self.subpaths.len() ==> #[trigger] self.subpath_content_ok(j)
        &&& forall|i: int| 0 <= i < self.endpoints.len() ==> #[trigger] self.endpoint_ref_ok(i)
        &&& forall|i: int|
            first <= i < self.endpoints.len()
                ==> (#[trigger] self.endpoints[i]).subpath_index == self.subpaths.len()
    }

    /// Well-formedness of a buffer at rest: every endpoint is covered by
    /// exactly one subpath range and every cross-reference is in bounds.
    pub open spec fn wf(self) -> bool {
        self.wf_upto(self.endpoints.len() as int)
    }

    /// Every subpath's first endpoint owns no arriving edge: its
    /// control-point reference is `None`.  Ingesting streams whose subpaths
    /// open with `MoveTo` establishes this, and reversal preserves it; it
    /// is the hypothesis of the reversal involution law.
    pub open spec fn subpath_heads_clear(self) -> bool {
        forall|j: int|
            0 <= j < self.subpaths.len() ==> {
                let sp = #[trigger] self.subpaths[j];
                self.endpoints[sp.first_endpoint_index].control_point_index is None
            }
    }
}

/// The model of an empty buffer.
pub open spec fn empty_path_model() -> PathModel {
    PathModel { endpoints: Seq::empty(), control_points: Seq::empty(), subpaths: Seq::empty() }
}

/// Appends one endpoint tagged with the ordinal of the subpath in progress.
pub open spec fn push_endpoint_model(m: PathModel, p: Point, r: Option<int>) -> PathModel {
    PathModel {
        endpoints: m.endpoints.push(
            EndpointModel {
                position: p,
                control_point_index: r,
                subpath_index: m.subpaths.len() as int,
            },
        ),
        control_points: m.control_points,
        subpaths: m.subpaths,
    }
}

/// Finalizes the subpath in progress, if it holds at least one endpoint,
/// recording the range `[first, len)` with the given closedness.
pub open spec fn finish_subpath_model(m: PathModel, first: int, closed: bool) -> PathModel {
    if first == m.endpoints.len() as int {
        m
    } else {
        PathModel {
            endpoints: m.endpoints,
            control_points: m.control_points,
            subpaths: m.subpaths.push(
                SubpathModel {
                    first_endpoint_index: first,
                    last_endpoint_index: m.endpoints.len() as int,
                    closed,
                },
            ),
        }
    }
}

/// The effect of ingesting one path command on the buffer and on the index
/// at which the subpath in progress begins.
pub open spec fn ingest_step(m: PathModel, first: int, e: QuadraticEvent) -> (PathModel, int) {
    match e {
        QuadraticEvent::MoveTo(p) => {
            let m1 = finish_subpath_model(m, first, false);
            (push_endpoint_model(m1, p, Option::None), m.endpoints.len() as int)
        },
        QuadraticEvent::LineTo(p) => (push_endpoint_model(m, p, Option::None), first),
        QuadraticEvent::QuadraticTo(c, p) => {
            let m1 = PathModel {
                endpoints: m.endpoints,
                control_points: m.control_points.push(c),
                subpaths: m.subpaths,
            };
            (push_endpoint_model(m1, p, Option::Some(m.control_points.len() as int)), first)
        },
        QuadraticEvent::Close => {
            let m1 = if first < m.endpoints.len() as int {
                push_endpoint_model(m, m.endpoints[first].position, Option::None)
            } else {
                m
            };
            (finish_subpath_model(m1, first, true), m1.endpoints.len() as int)
        },
    }
}

/// Folds [`ingest_step`] over a whole command sequence.
pub open spec fn ingest_events(m: PathModel, first: int, s: Seq<QuadraticEvent>) -> (PathModel, int)
    decreases s.len(),
{
    if s.len() == 0 {
        (m, first)
    } else {
        let r = ingest_step(m, first, s[0]);
        ingest_events(r.0, r.1, s.drop_first())
    }
}

/// The buffer that ingesting `s` into `m` leaves behind: every command
/// applied in order, then any still-open subpath finalized as open.
pub open spec fn ingest_model(m: PathModel, s: Seq<QuadraticEvent>) -> PathModel {
    let r = ingest_events(m, m.endpoints.len() as int, s);
    finish_subpath_model(r.0, r.1, false)
}

/// Folding one more command at the back of a sequence is one more step.
pub proof fn lemma_ingest_events_snoc(
    m: PathModel,
    first: int,
    s: Seq<QuadraticEvent>,
    e: QuadraticEvent,
)
    ensures
        ingest_events(m, first, s.push(e)) == ({
            let r = ingest_events(m, first, s);
            ingest_step(r.0, r.1, e)
        }),
    decreases s.len(),
{
    let t = s.push(e);
    if s.len() == 0 {
        assert(t[0] == e);
        assert(t.drop_first() =~= Seq::<QuadraticEvent>::empty());
        let r1 = ingest_step(m, first, e);
        assert(ingest_events(r1.0, r1.1, t.drop_first()) == (r1.0, r1.1));
        assert(ingest_events(m, first, t) == ingest_events(r1.0, r1.1, t.drop_first()));
        assert(ingest_events(m, first, s) == (m, first));
    } else {
        let r = ingest_step(m, first, s[0]);
        assert(t[0] == s[0]);
        assert(t.drop_first() =~= s.drop_first().push(e));
        lemma_ingest_events_snoc(r.0, r.1, s.drop_first(), e);
        assert(ingest_events(m, first, t) == ingest_events(r.0, r.1, t.drop_first()));
        assert(ingest_events(m, first, s) == ingest_events(r.0, r.1, s.drop_first()));
    }
}

/// Within a partition, earlier subpath ranges lie entirely before later ones.
pub proof fn lemma_partition_ordered(m: PathModel, j1: int, j2: int)
    requires
        m.subpaths_partition(),
        0 <= j1 < j2 < m.subpaths.len(),
    ensures
        m.subpaths[j1].last_endpoint_index <= m.subpaths[j2].first_endpoint_index,
    decreases j2 - j1,
{
    if j1 + 1 < j2 {
        lemma_partition_ordered(m, j1, j2 - 1);
        assert(m.subpaths[j2].first_endpoint_index == m.expected_start(j2));
    } else {
        assert(m.subpaths[j2].first_endpoint_index == m.expected_start(j2));
    }
}

/// Every finalized subpath ends no later than the pending cut.
pub proof fn lemma_subpath_within_covered(m: PathModel, first: int, j: int)
    requires
        m.wf_upto(first),
        0 <= j < m.subpaths.len(),
    ensures
        m.subpaths[j].last_endpoint_index <= first,
{
    if j < m.subpaths.len() - 1 {
        lemma_partition_ordered(m, j, m.subpaths.len() - 1);
        assert(m.subpaths[m.subpaths.len() - 1].first_endpoint_index < m.subpaths[m.subpaths.len()
            - 1].last_endpoint_index);
    }
}

/// Appending an endpoint tagged with the pending ordinal keeps the buffer
/// well formed up to the same cut.
pub proof fn lemma_push_endpoint_wf(m: PathModel, first: int, p: Point, r: Option<int>)
    requires
        m.wf_upto(first),
        match r {
            Option::Some(ci) => 0 <= ci < m.control_points.len(),
            Option::None => true,
        },
    ensures
        push_endpoint_model(m, p, r).wf_upto(first),
{
    let m1 = push_endpoint_model(m, p, r);
    let len = m.endpoints.len() as int;
    assert(m1.covered_len() == m.covered_len());
    assert forall|j: int| 0 <= j < m1.subpaths.len() implies #[trigger] m1.subpath_content_ok(
        j,
    ) by {
        assert(m.subpath_content_ok(j));
        lemma_subpath_within_covered(m, first, j);
        let sp = m1.subpaths[j];
        assert forall|i: int|
            sp.first_endpoint_index <= i < sp.last_endpoint_index implies (
        #[trigger] m1.endpoints[i]).subpath_index == j by {
            assert(m1.endpoints[i] == m.endpoints[i]);
        }
        if sp.closed {
            assert(m1.endpoints[sp.last_endpoint_index - 1] == m.endpoints[sp.last_endpoint_index
                - 1]);
            assert(m1.endpoints[sp.first_endpoint_index] == m.endpoints[sp.first_endpoint_index]);
        }
    }
    assert forall|i: int| 0 <= i < m1.endpoints.len() implies #[trigger] m1.endpoint_ref_ok(i) by {
        if i < len {
            assert(m.endpoint_ref_ok(i));
            assert(m1.endpoints[i] == m.endpoints[i]);
        }
    }
    assert forall|i: int|
        first <= i < m1.endpoints.len() implies (#[trigger] m1.endpoints[i]).subpath_index
        == m1.subpaths.len() by {
        if i < len {
            assert(m1.endpoints[i] == m.endpoints[i]);
            assert(m.endpoints[i].subpath_index == m.subpaths.len());
        }
    }
}

/// Appending a control point keeps the buffer well formed: every existing
/// reference stays in bounds.
pub proof fn lemma_push_control_point_wf(m: PathModel, first: int, c: Point)
    requires
        m.wf_upto(first),
    ensures
        (PathModel {
            endpoints: m.endpoints,
            control_points: m.control_points.push(c),
            subpaths: m.subpaths,
        }).wf_upto(first),
{
    let m1 = PathModel {
        endpoints: m.endpoints,
        control_points: m.control_points.push(c),
        subpaths: m.subpaths,
    };
    assert(m1.covered_len() == m.covered_len());
    assert forall|j: int| 0 <= j < m1.subpaths.len() implies #[trigger] m1.subpath_content_ok(
        j,
    ) by {
        assert(m.subpath_content_ok(j));
    }
    assert forall|i: int| 0 <= i < m1.endpoints.len() implies #[trigger] m1.endpoint_ref_ok(i) by {
        assert(m.endpoint_ref_ok(i));
    }
}

/// Finalizing the pending range, when its closing duplicate is already in
/// place, yields a buffer that is well formed at rest.
pub proof fn lemma_finish_subpath_wf(m: PathModel, first: int, closed: bool)
    requires
        m.wf_upto(first),
        closed && first < m.endpoints.len() as int ==> m.endpoints[m.endpoints.len()
            - 1].position == m.endpoints[first].position,
    ensures
        finish_subpath_model(m, first, closed).wf(),
{
    let m1 = finish_subpath_model(m, first, closed);
    let len = m.endpoints.len() as int;
    if first == len {
        assert(m1 == m);
    } else {
        let n = m.subpaths.len() as int;
        assert(m1.subpaths[n] == SubpathModel {
            first_endpoint_index: first,
            last_endpoint_index: len,
            closed,
        });
        assert(m1.covered_len() == len);
        assert forall|j: int| 0 <= j < m1.subpaths.len() implies {
            let sp = #[trigger] m1.subpaths[j];
            &&& sp.first_endpoint_index < sp.last_endpoint_index
            &&& sp.first_endpoint_index == m1.expected_start(j)
        } by {
            if j < n {
                assert(m1.subpaths[j] == m.subpaths[j]);
                assert(m.subpaths[j].first_endpoint_index == m.expected_start(j));
                assert(m1.expected_start(j) == m.expected_start(j));
            } else {
                assert(m1.expected_start(j) == m.covered_len());
            }
        }
        assert forall|j: int| 0 <= j < m1.subpaths.len() implies #[trigger] m1.subpath_content_ok(
            j,
        ) by {
            if j < n {
                assert(m.subpath_content_ok(j));
                assert(m1.subpaths[j] == m.subpaths[j]);
            } else {
                let sp = m1.subpaths[j];
                assert forall|i: int|
                    sp.first_endpoint_index <= i < sp.last_endpoint_index implies (
                #[trigger] m1.endpoints[i]).subpath_index == j by {
                    assert(m.endpoints[i].subpath_index == m.subpaths.len());
                }
            }
        }
        assert forall|i: int| 0 <= i < m1.endpoints.len() implies #[trigger] m1.endpoint_ref_ok(
            i,
        ) by {
            assert(m.endpoint_ref_ok(i));
        }
    }
}

/// One ingestion step keeps the buffer well formed up to the new cut.
pub proof fn lemma_ingest_step_wf(m: PathModel, first: int, e: QuadraticEvent)
    requires
        m.wf_upto(first),
    ensures
        ingest_step(m, first, e).0.wf_upto(ingest_step(m, first, e).1),
{
    let len = m.endpoints.len() as int;
    match e {
        QuadraticEvent::MoveTo(p) => {
            lemma_finish_subpath_wf(m, first, false);
            let m1 = finish_subpath_model(m, first, false);
            lemma_push_endpoint_wf(m1, len, p, Option::None);
        },
        QuadraticEvent::LineTo(p) => {
            lemma_push_endpoint_wf(m, first, p, Option::None);
        },
        QuadraticEvent::QuadraticTo(c, p) => {
            lemma_push_control_point_wf(m, first, c);
            let m1 = PathModel {
                endpoints: m.endpoints,
                control_points: m.control_points.push(c),
                subpaths: m.subpaths,
            };
            lemma_push_endpoint_wf(m1, first, p, Option::Some(m.control_points.len() as int));
        },
        QuadraticEvent::Close => {
            if first < len {
                lemma_push_endpoint_wf(m, first, m.endpoints[first].position, Option::None);
                let m1 = push_endpoint_model(m, m.endpoints[first].position, Option::None);
                assert(m1.endpoints[m1.endpoints.len() - 1].position
                    == m1.endpoints[first].position);
                lemma_finish_subpath_wf(m1, first, true);
            } else {
                lemma_finish_subpath_wf(m, first, true);
            }
        },
    }
}

/// Ingesting a whole command sequence keeps the buffer well formed up to
/// the final cut.
pub proof fn lemma_ingest_events_wf(m: PathModel, first: int, s: Seq<QuadraticEvent>)
    requires
        m.wf_upto(first),
    ensures
        ingest_events(m, first, s).0.wf_upto(ingest_events(m, first, s).1),
    decreases s.len(),
{
    if s.len() > 0 {
        let r = ingest_step(m, first, s[0]);
        lemma_ingest_step_wf(m, first, s[0]);
        lemma_ingest_events_wf(r.0, r.1, s.drop_first());
    }
}

/// Ingestion carries well-formedness from the old buffer to the new one.
pub proof fn lemma_ingest_model_wf(m: PathModel, s: Seq<QuadraticEvent>)
    requires
        m.wf(),
    ensures
        ingest_model(m, s).wf(),
{
    lemma_ingest_events_wf(m, m.endpoints.len() as int, s);
    let r = ingest_events(m, m.endpoints.len() as int, s);
    lemma_finish_subpath_wf(r.0, r.1, false);
}

/// The endpoint sequence after reversing the range `[start, end)` of one
/// subpath.  Positions (and ordinals) visit in the opposite order; each
/// control-point reference moves to the next endpoint in the new order,
/// because a reference describes the edge arriving at its owner and
/// reversal flips which edge arrives where; the new first endpoint owns no
/// arriving edge.
pub open spec fn reversed_endpoints(
    eps: Seq<EndpointModel>,
    start: int,
    end: int,
) -> Seq<EndpointModel> {
    Seq::new(
        eps.len(),
        |i: int|
            if start <= i < end {
                EndpointModel {
                    position: eps[start + end - 1 - i].position,
                    control_point_index: if i == start {
                        Option::None
                    } else {
                        eps[start + end - i].control_point_index
                    },
                    subpath_index: eps[start + end - 1 - i].subpath_index,
                }
            } else {
                eps[i]
            },
    )
}

/// Reversing one subpath of a well-formed buffer leaves it well formed.
pub proof fn lemma_reverse_preserves_wf(m: PathModel, j: int)
    requires
        m.wf(),
        0 <= j < m.subpaths.len(),
    ensures
        (PathModel {
            endpoints: reversed_endpoints(
                m.endpoints,
                m.subpaths[j].first_endpoint_index,
                m.subpaths[j].last_endpoint_index,
            ),
            control_points: m.control_points,
            subpaths: m.subpaths,
        }).wf(),
{
    let start = m.subpaths[j].first_endpoint_index;
    let end = m.subpaths[j].last_endpoint_index;
    let m1 = PathModel {
        endpoints: reversed_endpoints(m.endpoints, start, end),
        control_points: m.control_points,
        subpaths: m.subpaths,
    };
    assert(m.subpath_content_ok(j));
    assert(m1.endpoints.len() == m.endpoints.len());
    assert(m1.covered_len() == m.covered_len());
    assert forall|j2: int| 0 <= j2 < m1.subpaths.len() implies #[trigger] m1.subpath_content_ok(
        j2,
    ) by {
        assert(m.subpath_content_ok(j2));
        let sp = m.subpaths[j2];
        if j2 < j {
            lemma_partition_ordered(m, j2, j);
        } else if j < j2 {
            lemma_partition_ordered(m, j, j2);
        }
        assert forall|i: int|
            sp.first_endpoint_index <= i < sp.last_endpoint_index implies (
        #[trigger] m1.endpoints[i]).subpath_index == j2 by {
            if start <= i < end {
                assert(m.endpoints[start + end - 1 - i].subpath_index == j);
            }
        }
        if sp.closed {
            assert(m1.endpoints[sp.last_endpoint_index - 1].position
                == m1.endpoints[sp.first_endpoint_index].position);
        }
    }
    assert forall|i: int| 0 <= i < m1.endpoints.len() implies #[trigger] m1.endpoint_ref_ok(i) by {
        if start < i < end {
            assert(m.endpoint_ref_ok(start + end - i));
        } else if i != start {
            assert(m.endpoint_ref_ok(i));
        }
    }
}

/// Reversal keeps every subpath's first endpoint free of a control-point
/// reference: the reversed subpath's new head is cleared outright, and no
/// other subpath's endpoints are touched.
pub proof fn lemma_reverse_preserves_heads_clear(m: PathModel, j: int)
    requires
        m.wf(),
        m.subpath_heads_clear(),
        0 <= j < m.subpaths.len(),
    ensures
        (PathModel {
            endpoints: reversed_endpoints(
                m.endpoints,
                m.subpaths[j].first_endpoint_index,
                m.subpaths[j].last_endpoint_index,
            ),
            control_points: m.control_points,
            subpaths: m.subpaths,
        }).subpath_heads_clear(),
{
    let start = m.subpaths[j].first_endpoint_index;
    let end = m.subpaths[j].last_endpoint_index;
    let m1 = PathModel {
        endpoints: reversed_endpoints(m.endpoints, start, end),
        control_points: m.control_points,
        subpaths: m.subpaths,
    };
    assert(m.subpath_content_ok(j));
    assert forall|j2: int| 0 <= j2 < m1.subpaths.len() implies ({
        let sp = #[trigger] m1.subpaths[j2];
        m1.endpoints[sp.first_endpoint_index].control_point_index is None
    }) by {
        let sp = m.subpaths[j2];
        assert(m.subpath_content_ok(j2));
        if j2 < j {
            lemma_partition_ordered(m, j2, j);
            assert(m1.endpoints[sp.first_endpoint_index] == m.endpoints[sp.first_endpoint_index]);
        } else if j < j2 {
            lemma_partition_ordered(m, j, j2);
            assert(m1.endpoints[sp.first_endpoint_index] == m.endpoints[sp.first_endpoint_index]);
        }
    }
}

/// Reversal is an involution: reversing a subpath's endpoint range twice
/// restores the original endpoint order and control-point attribution.
///
/// The subpath's first endpoint must own no arriving edge, as every subpath
/// built from a command stream that opens its subpaths with `MoveTo` does;
/// reversal itself also always leaves the range in that state.
pub proof fn lemma_reverse_involution(eps: Seq<EndpointModel>, start: int, end: int)
    requires
        0 <= start <= end <= eps.len(),
        start < end ==> eps[start].control_point_index is None,
    ensures
        reversed_endpoints(reversed_endpoints(eps, start, end), start, end) == eps,
{
    let r1 = reversed_endpoints(eps, start, end);
    let r2 = reversed_endpoints(r1, start, end);
    assert forall|i: int| 0 <= i < eps.len() implies r2[i] == eps[i] by {
        if start <= i < end {
            assert(r1[start + end - 1 - i].position == eps[i].position);
            assert(r1[start + end - 1 - i].subpath_index == eps[i].subpath_index);
            if i != start {
                assert(r1[start + end - i].control_point_index == eps[i].control_point_index);
            }
        }
    }
    assert(r2 =~= eps);
}

/// Reversal is an involution on a buffer: reversing the same subpath of a
/// well-formed buffer twice restores its endpoint sequence exactly (the
/// control points and the subpath table are never touched by reversal).
///
/// The subpath's first endpoint must own no arriving edge.  That holds of
/// every buffer reached from an empty one by ingesting streams whose
/// subpaths open with `MoveTo` and by reversals: ingestion establishes it
/// (`crate::laws::lemma_ingest_model_heads_clear`) and reversal preserves
/// it (`lemma_reverse_preserves_heads_clear`).
pub proof fn lemma_reverse_subpath_involution(m: PathModel, j: int)
    requires
        m.wf(),
        0 <= j < m.subpaths.len(),
        m.endpoints[m.subpaths[j].first_endpoint_index].control_point_index is None,
    ensures
        reversed_endpoints(
            reversed_endpoints(
                m.endpoints,
                m.subpaths[j].first_endpoint_index,
                m.subpaths[j].last_endpoint_index,
            ),
            m.subpaths[j].first_endpoint_index,
            m.subpaths[j].last_endpoint_index,
        ) == m.endpoints,
{
    assert(m.subpath_content_ok(j));
    lemma_reverse_involution(
        m.endpoints,
        m.subpaths[j].first_endpoint_index,
        m.subpaths[j].last_endpoint_index,
    );
}

impl PathBuffer {
    /// Creates a new, empty path buffer.
    pub fn new() -> (r: PathBuffer)
        ensures
            r@ == empty_path_model(),
            r@.wf(),
    {
        let r = PathBuffer {
            endpoints: Vec::new(),
            control_points: Vec::new(),
            subpaths: Vec::new(),
        };
        proof {
            assert(r@.endpoints =~= empty_path_model().endpoints);
            assert(r@.control_points =~= empty_path_model().control_points);
            assert(r@.subpaths =~= empty_path_model().subpaths);
        }
        r
    }

    /// Appends a sequence of path commands to this path buffer.
    ///
    /// Subpath ordinals continue from the buffer's current count.  Malformed
    /// input (such as `Close` before any `MoveTo`) records nothing for that
    /// stretch; ingestion never errors.
    pub fn add_stream(&mut self, stream: &Vec<QuadraticEvent>)
        ensures
            final(self)@ == ingest_model(old(self)@, stream@),
            old(self)@.wf() ==> final(self)@.wf(),
    {
        let ghost m0 = self@;
        let mut first_subpath_endpoint_index: usize = self.endpoints.len();
        let n = stream.len();
        let mut k: usize = 0;
        while k < n
            invariant
                n == stream.len(),
                0 <= k <= n,
                first_subpath_endpoint_index <= self.endpoints.len(),
                self@ == ingest_events(m0, m0.endpoints.len() as int, stream@.take(k as int)).0,
                first_subpath_endpoint_index as int == ingest_events(
                    m0,
                    m0.endpoints.len() as int,
                    stream@.take(k as int),
                ).1,
            decreases n - k,
        {
            let ghost s_pre = stream@.take(k as int);
            let ghost m_pre = self@;
            let ghost f_pre = first_subpath_endpoint_index as int;
            let event = stream[k];
            match event {
                QuadraticEvent::Close => {
                    self.close_subpath(&mut first_subpath_endpoint_index);
                },
                QuadraticEvent::MoveTo(to) => {
                    self.end_subpath(&mut first_subpath_endpoint_index);
                    let subpath_index = self.subpaths.len();
                    self.endpoints.push(
                        Endpoint { position: to, control_point_index: None, subpath_index },
                    );
                },
                QuadraticEvent::LineTo(to) => {
                    let subpath_index = self.subpaths.len();
                    self.endpoints.push(
                        Endpoint { position: to, control_point_index: None, subpath_index },
                    );
                },
                QuadraticEvent::QuadraticTo(ctrl, to) => {
                    let control_point_index = self.control_points.len();
                    self.control_points.push(ctrl);
                    let subpath_index = self.subpaths.len();
                    self.endpoints.push(
                        Endpoint {
                            position: to,
                            control_point_index: Some(control_point_index),
                            subpath_index,
                        },
                    );
                },
            }
            proof {
                let r = ingest_step(m_pre, f_pre, event);
                assert(self@.endpoints =~= r.0.endpoints);
                assert(self@.control_points =~= r.0.control_points);
                assert(self@.subpaths =~= r.0.subpaths);
                assert(stream@.take(k + 1) =~= s_pre.push(event));
                lemma_ingest_events_snoc(m0, m0.endpoints.len() as int, s_pre, event);
            }
            k += 1;
        }
        proof {
            assert(stream@.take(n as int) =~= stream@);
            if m0.wf() {
                lemma_ingest_model_wf(m0, stream@);
            }
        }
        self.end_subpath(&mut first_subpath_endpoint_index);
    }

    /// Reverses the winding order of the subpath with the given index.
    ///
    /// The endpoint slice of the subpath is reversed in place; each
    /// control-point reference is then re-attributed to the endpoint whose
    /// arriving edge it describes in the new order, and the new first
    /// endpoint's reference is cleared.  A no-op if the range is empty.
    /// The subpath table, the control points, the `closed` flags and the
    /// endpoints of every other subpath are unaffected.
    pub fn reverse_subpath(&mut self, subpath_index: usize)
        requires
            subpath_index < old(self)@.subpaths.len(),
            old(self)@.subpaths[subpath_index as int].first_endpoint_index <= old(
                self,
            )@.subpaths[subpath_index as int].last_endpoint_index,
            old(self)@.subpaths[subpath_index as int].last_endpoint_index <= old(
                self,
            )@.endpoints.len(),
        ensures
            final(self)@.endpoints == reversed_endpoints(
                old(self)@.endpoints,
                old(self)@.subpaths[subpath_index as int].first_endpoint_index,
                old(self)@.subpaths[subpath_index as int].last_endpoint_index,
            ),
            final(self)@.control_points == old(self)@.control_points,
            final(self)@.subpaths == old(self)@.subpaths,
            old(self)@.wf() ==> final(self)@.wf(),
            old(self)@.wf() && old(self)@.subpath_heads_clear()
                ==> final(self)@.subpath_heads_clear(),
    {
        let ghost m0 = self@;
        let ghost eps0 = self.endpoints@;
        let subpath = self.subpaths[subpath_index];
        let start = subpath.first_endpoint_index;
        let end = subpath.last_endpoint_index;
        if start == end {
            proof {
                assert(self@.endpoints =~= reversed_endpoints(
                    m0.endpoints,
                    start as int,
                    end as int,
                ));
                if m0.wf() {
                    lemma_reverse_preserves_wf(m0, subpath_index as int);
                    if m0.subpath_heads_clear() {
                        lemma_reverse_preserves_heads_clear(m0, subpath_index as int);
                    }
                }
            }
            return ;
        }
        let mut lo = start;
        let mut hi = end;
        while hi - lo > 1
            invariant
                start <= lo <= hi <= end,
                end <= self.endpoints.len(),
                lo - start == end - hi,
                self.endpoints@.len() == eps0.len(),
                self.control_points@ == old(self).control_points@,
                self.subpaths@ == old(self).subpaths@,
                forall|i: int|
                    0 <= i < eps0.len() && !(start <= i < end) ==> #[trigger] self.endpoints@[i]
                        == eps0[i],
                forall|i: int|
                    start <= i < lo || hi <= i < end ==> #[trigger] self.endpoints@[i]
                        == eps0[start + end - 1 - i],
                forall|i: int| lo <= i < hi ==> #[trigger] self.endpoints@[i] == eps0[i],
            decreases hi - lo,
        {
            let a = self.endpoints[lo];
            let b = self.endpoints[hi - 1];
            self.endpoints[lo] = b;
            self.endpoints[hi - 1] = a;
            lo += 1;
            hi -= 1;
        }
        let ghost eps_rev = self.endpoints@;
        proof {
            assert forall|i: int| start <= i < end implies #[trigger] eps_rev[i] == eps0[start + end
                - 1 - i] by {
                if lo <= i < hi {
                    assert(start + end - 1 - i == i);
                }
            }
        }
        let mut i = end - 1;
        while i > start
            invariant
                start <= i <= end - 1,
                end <= self.endpoints.len(),
                self.endpoints@.len() == eps_rev.len(),
                self.control_points@ == old(self).control_points@,
                self.subpaths@ == old(self).subpaths@,
                forall|j: int|
                    0 <= j < eps_rev.len() && !(i < j < end) ==> #[trigger] self.endpoints@[j]
                        == eps_rev[j],
                forall|j: int|
                    i < j < end ==> #[trigger] self.endpoints@[j] == (Endpoint {
                        position: eps_rev[j].position,
                        control_point_index: eps_rev[j - 1].control_point_index,
                        subpath_index: eps_rev[j].subpath_index,
                    }),
            decreases i,
        {
            let r = self.endpoints[i - 1].control_point_index;
            let mut e = self.endpoints[i];
            e.control_point_index = r;
            self.endpoints[i] = e;
            i -= 1;
        }
        let mut e = self.endpoints[start];
        e.control_point_index = None;
        self.endpoints[start] = e;
        proof {
            assert forall|k: int| 0 <= k < self@.endpoints.len() implies #[trigger] self
                @.endpoints[k] == reversed_endpoints(m0.endpoints, start as int, end as int)[k] by {
                if start < k < end {
                    assert(self.endpoints@[k] == (Endpoint {
                        position: eps_rev[k].position,
                        control_point_index: eps_rev[k - 1].control_point_index,
                        subpath_index: eps_rev[k].subpath_index,
                    }));
                    assert(eps_rev[k] == eps0[start + end - 1 - k]);
                    assert(eps_rev[k - 1] == eps0[start + end - k]);
                }
            }
            assert(self@.endpoints =~= reversed_endpoints(m0.endpoints, start as int, end as int));
            if m0.wf() {
                lemma_reverse_preserves_wf(m0, subpath_index as int);
                if m0.subpath_heads_clear() {
                    lemma_reverse_preserves_heads_clear(m0, subpath_index as int);
                }
            }
        }
    }

    /// Duplicates the first pending endpoint's position as an explicit
    /// closing endpoint, then finalizes the subpath in progress as closed.
    fn close_subpath(&mut self, first_subpath_endpoint_index: &mut usize)
        requires
            *old(first_subpath_endpoint_index) <= old(self).endpoints.len(),
        ensures
            ({
                let r = ingest_step(
                    old(self)@,
                    *old(first_subpath_endpoint_index) as int,
                    QuadraticEvent::Close,
                );
                &&& final(self)@ == r.0
                &&& *final(first_subpath_endpoint_index) as int == r.1
            }),
    {
        let ghost m_pre = self@;
        let ghost f_pre = *first_subpath_endpoint_index as int;
        if self.endpoints.len() > *first_subpath_endpoint_index {
            let first_endpoint = self.endpoints[*first_subpath_endpoint_index];
            let subpath_index = self.subpaths.len();
            self.endpoints.push(
                Endpoint {
                    position: first_endpoint.position,
                    control_point_index: None,
                    subpath_index,
                },
            );
            proof {
                let m1 = push_endpoint_model(m_pre, m_pre.endpoints[f_pre].position, Option::None);
                assert(self@.endpoints =~= m1.endpoints);
                assert(self@.control_points =~= m1.control_points);
                assert(self@.subpaths =~= m1.subpaths);
            }
        }
        self.do_end_subpath(first_subpath_endpoint_index, true);
    }

    /// Finalizes the subpath in progress, if any, as open.
    fn end_subpath(&mut self, first_subpath_endpoint_index: &mut usize)
        ensures
            final(self)@ == finish_subpath_model(
                old(self)@,
                *old(first_subpath_endpoint_index) as int,
                false,
            ),
            *final(first_subpath_endpoint_index) == old(self).endpoints.len(),
    {
        self.do_end_subpath(first_subpath_endpoint_index, false);
    }

    /// Records the pending endpoint range as a subpath, unless it is empty,
    /// and starts the next pending range at the current end.
    fn do_end_subpath(&mut self, first_subpath_endpoint_index: &mut usize, closed: bool)
        ensures
            final(self)@ == finish_subpath_model(
                old(self)@,
                *old(first_subpath_endpoint_index) as int,
                closed,
            ),
            *final(first_subpath_endpoint_index) == old(self).endpoints.len(),
    {
        let ghost m_pre = self@;
        let ghost f_pre = *first_subpath_endpoint_index as int;
        let last_subpath_endpoint_index = self.endpoints.len();
        if *first_subpath_endpoint_index != last_subpath_endpoint_index {
            self.subpaths.push(
                Subpath {
                    first_endpoint_index: *first_subpath_endpoint_index,
                    last_endpoint_index: last_subpath_endpoint_index,
                    closed,
                },
            );
            proof {
                let m1 = finish_subpath_model(m_pre, f_pre, closed);
                assert(self@.endpoints =~= m1.endpoints);
                assert(self@.control_points =~= m1.control_points);
                assert(self@.subpaths =~= m1.subpaths);
            }
        }
        *first_subpath_endpoint_index = last_subpath_endpoint_index;
    }
}

} // verus!
