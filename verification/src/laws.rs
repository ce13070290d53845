//! Relations between ingestion, decoding and reversal, stated over the
//! buffer model and proved once for every input.

use vstd::prelude::*;

use crate::buffer::{
    empty_path_model, finish_subpath_model, ingest_events, ingest_model, ingest_step,
    lemma_finish_subpath_wf, lemma_ingest_events_wf, lemma_ingest_step_wf,
    lemma_push_control_point_wf, lemma_push_endpoint_wf, push_endpoint_model, reversed_endpoints,
    EndpointModel, PathModel, SubpathModel,
};
use crate::geometry::{Point, QuadraticEvent};
use crate::stream::{
    decode_all, decode_endpoint, decode_range, decode_subpath, lemma_decode_range_frame,
    lemma_decode_range_snoc,
};

verus! {

/// A command stream is well formed, given whether a subpath is currently
/// open, when every edge or `Close` falls inside an open subpath: each
/// subpath's commands begin with its `MoveTo`.
pub open spec fn stream_wf_from(s: Seq<QuadraticEvent>, open_subpath: bool) -> bool
    decreases s.len(),
{
    if s.len() == 0 {
        true
    } else {
        match s[0] {
            QuadraticEvent::MoveTo(_) => stream_wf_from(s.drop_first(), true),
            QuadraticEvent::LineTo(_) => open_subpath && stream_wf_from(s.drop_first(), true),
            QuadraticEvent::QuadraticTo(_, _) => open_subpath && stream_wf_from(
                s.drop_first(),
                true,
            ),
            QuadraticEvent::Close => open_subpath && stream_wf_from(s.drop_first(), false),
        }
    }
}

/// A well-formed command stream: every subpath opens with `MoveTo`.
pub open spec fn stream_wf(s: Seq<QuadraticEvent>) -> bool {
    stream_wf_from(s, false)
}

/// The stream with each `Close` expanded to the materialized closing edge
/// followed by `Close`, threading the current subpath's start point.
pub open spec fn expand_closes_from(s: Seq<QuadraticEvent>, start: Point) -> Seq<QuadraticEvent>
    decreases s.len(),
{
    if s.len() == 0 {
        Seq::empty()
    } else {
        match s[0] {
            QuadraticEvent::MoveTo(p) => seq![QuadraticEvent::MoveTo(p)] + expand_closes_from(
                s.drop_first(),
                p,
            ),
            QuadraticEvent::Close => seq![QuadraticEvent::LineTo(start), QuadraticEvent::Close]
                + expand_closes_from(s.drop_first(), start),
            _ => seq![s[0]] + expand_closes_from(s.drop_first(), start),
        }
    }
}

/// The expansion of a whole stream; the threaded start point is never read
/// before a `MoveTo` sets it, so any seed would do.
pub open spec fn expand_closes(s: Seq<QuadraticEvent>) -> Seq<QuadraticEvent> {
    expand_closes_from(s, Point { x: 0, y: 0 })
}

/// The commands a stream actually records when ingested with the given
/// open-subpath state and subpath start point.  A well-formed stretch is
/// kept as it stands, with each `Close` expanded to its materialized
/// closing edge followed by `Close`; a malformed stretch degrades the way
/// ingestion degrades: a headless edge starts a fresh subpath, so it
/// records (and decodes) as the `MoveTo` of its destination, and a `Close`
/// outside a subpath records nothing.
pub open spec fn recorded_events(
    s: Seq<QuadraticEvent>,
    open_subpath: bool,
    start: Point,
) -> Seq<QuadraticEvent>
    decreases s.len(),
{
    if s.len() == 0 {
        Seq::empty()
    } else {
        let rest = s.drop_first();
        match s[0] {
            QuadraticEvent::MoveTo(p) => seq![QuadraticEvent::MoveTo(p)] + recorded_events(
                rest,
                true,
                p,
            ),
            QuadraticEvent::LineTo(p) => if open_subpath {
                seq![QuadraticEvent::LineTo(p)] + recorded_events(rest, true, start)
            } else {
                seq![QuadraticEvent::MoveTo(p)] + recorded_events(rest, true, p)
            },
            QuadraticEvent::QuadraticTo(c, p) => if open_subpath {
                seq![QuadraticEvent::QuadraticTo(c, p)] + recorded_events(rest, true, start)
            } else {
                seq![QuadraticEvent::MoveTo(p)] + recorded_events(rest, true, p)
            },
            QuadraticEvent::Close => if open_subpath {
                seq![QuadraticEvent::LineTo(start), QuadraticEvent::Close] + recorded_events(
                    rest,
                    false,
                    start,
                )
            } else {
                recorded_events(rest, false, start)
            },
        }
    }
}

/// The recorded form of a whole stream; the threaded start point is never
/// read before an effective subpath head sets it, so any seed would do.
pub open spec fn recorded_stream(s: Seq<QuadraticEvent>) -> Seq<QuadraticEvent> {
    recorded_events(s, false, Point { x: 0, y: 0 })
}

/// With no subpath open, the threaded start point is irrelevant: it is
/// overwritten by the command that opens the next subpath, and an
/// intervening `Close` records nothing.
proof fn lemma_recorded_events_start_irrelevant(s: Seq<QuadraticEvent>, a: Point, b: Point)
    ensures
        recorded_events(s, false, a) == recorded_events(s, false, b),
    decreases s.len(),
{
    if s.len() > 0 {
        match s[0] {
            QuadraticEvent::Close => {
                lemma_recorded_events_start_irrelevant(s.drop_first(), a, b);
            },
            _ => {
            },
        }
    }
}

/// On a well-formed stream nothing degrades: the recorded form is the
/// plain expansion of its `Close` commands.
proof fn lemma_recorded_events_of_wf(s: Seq<QuadraticEvent>, open_subpath: bool, start: Point)
    requires
        stream_wf_from(s, open_subpath),
    ensures
        recorded_events(s, open_subpath, start) == expand_closes_from(s, start),
    decreases s.len(),
{
    if s.len() > 0 {
        match s[0] {
            QuadraticEvent::MoveTo(p) => {
                lemma_recorded_events_of_wf(s.drop_first(), true, p);
            },
            QuadraticEvent::Close => {
                lemma_recorded_events_of_wf(s.drop_first(), false, start);
            },
            _ => {
                lemma_recorded_events_of_wf(s.drop_first(), true, start);
            },
        }
    }
}

/// The start point of the subpath in progress: the position of its first
/// pending endpoint.
pub open spec fn pending_start_point(m: PathModel, first: int) -> Point {
    if first < m.endpoints.len() as int {
        m.endpoints[first].position
    } else {
        Point { x: 0, y: 0 }
    }
}

/// The commands that one ingested command contributes to the decoded
/// stream: itself, with `Close` contributing its materialized closing edge
/// first; with no subpath open, an edge contributes the `MoveTo` of its
/// destination and a `Close` contributes nothing.
pub open spec fn ingest_step_head(m: PathModel, first: int, e: QuadraticEvent) -> Seq<
    QuadraticEvent,
> {
    let open_subpath = first < m.endpoints.len() as int;
    match e {
        QuadraticEvent::MoveTo(p) => seq![QuadraticEvent::MoveTo(p)],
        QuadraticEvent::LineTo(p) => if open_subpath {
            seq![QuadraticEvent::LineTo(p)]
        } else {
            seq![QuadraticEvent::MoveTo(p)]
        },
        QuadraticEvent::QuadraticTo(c, p) => if open_subpath {
            seq![QuadraticEvent::QuadraticTo(c, p)]
        } else {
            seq![QuadraticEvent::MoveTo(p)]
        },
        QuadraticEvent::Close => if open_subpath {
            seq![QuadraticEvent::LineTo(pending_start_point(m, first)), QuadraticEvent::Close]
        } else {
            Seq::empty()
        },
    }
}

/// Ingesting one command appends exactly its head to what the buffer (with
/// its pending subpath finalized) decodes to.
proof fn lemma_decode_ingest_step(m: PathModel, first: int, e: QuadraticEvent)
    requires
        m.wf_upto(first),
    ensures
        ({
            let r = ingest_step(m, first, e);
            decode_all(finish_subpath_model(r.0, r.1, false)) == decode_all(
                finish_subpath_model(m, first, false),
            ) + ingest_step_head(m, first, e)
        }),
{
    let len = m.endpoints.len() as int;
    let n = m.subpaths.len() as int;
    let mo = finish_subpath_model(m, first, false);
    lemma_finish_subpath_wf(m, first, false);
    match e {
        QuadraticEvent::MoveTo(p) => {
            let np = mo.subpaths.len() as int;
            let mp = push_endpoint_model(mo, p, Option::None);
            let mz = finish_subpath_model(mp, len, false);
            assert(ingest_step(m, first, e).0 == mp);
            assert(ingest_step(m, first, e).1 == len);
            assert(mz.subpaths.len() == np + 1);
            lemma_decode_range_snoc(mz, 0, np + 1);
            lemma_decode_range_frame(mo, mz, 0, np);
            let dz = decode_subpath(mz, np);
            assert(dz.len() == 1);
            assert(dz[0] == decode_endpoint(mz, len, len));
            assert(dz =~= seq![QuadraticEvent::MoveTo(p)]);
            assert(decode_all(mz) =~= decode_all(mo) + ingest_step_head(m, first, e));
        },
        QuadraticEvent::LineTo(p) => {
            let mp = push_endpoint_model(m, p, Option::None);
            let mq = finish_subpath_model(mp, first, false);
            assert(ingest_step(m, first, e).0 == mp);
            assert(ingest_step(m, first, e).1 == first);
            lemma_push_endpoint_wf(m, first, p, Option::None);
            lemma_finish_subpath_wf(mp, first, false);
            assert(mq.subpaths.len() == n + 1);
            lemma_decode_range_snoc(mq, 0, n + 1);
            if first < len {
                assert(mo.subpaths.len() == n + 1);
                lemma_decode_range_snoc(mo, 0, n + 1);
                lemma_decode_range_frame(mo, mq, 0, n);
                let da = decode_subpath(mo, n);
                let db = decode_subpath(mq, n);
                assert(da.len() == len - first);
                assert(db.len() == len + 1 - first);
                assert forall|k: int| 0 <= k < db.len() implies #[trigger] db[k] == (da + seq![
                    QuadraticEvent::LineTo(p),
                ])[k] by {
                    assert(db[k] == decode_endpoint(mq, first, first + k));
                    if k < len - first {
                        assert(da[k] == decode_endpoint(mo, first, first + k));
                        assert(mq.endpoints[first + k] == mo.endpoints[first + k]);
                    } else {
                        assert(first + k == len);
                    }
                }
                assert(db =~= da + seq![QuadraticEvent::LineTo(p)]);
            } else {
                assert(mo == m);
                lemma_decode_range_frame(m, mq, 0, n);
                let db = decode_subpath(mq, n);
                assert(db.len() == 1);
                assert(db[0] == decode_endpoint(mq, first, first));
                assert(db =~= seq![QuadraticEvent::MoveTo(p)]);
            }
            assert(decode_all(mq) =~= decode_all(mo) + ingest_step_head(m, first, e));
        },
        QuadraticEvent::QuadraticTo(c, p) => {
            let mc = PathModel {
                endpoints: m.endpoints,
                control_points: m.control_points.push(c),
                subpaths: m.subpaths,
            };
            let mp = push_endpoint_model(mc, p, Option::Some(m.control_points.len() as int));
            let mq = finish_subpath_model(mp, first, false);
            assert(ingest_step(m, first, e).0 == mp);
            assert(ingest_step(m, first, e).1 == first);
            lemma_push_control_point_wf(m, first, c);
            lemma_push_endpoint_wf(mc, first, p, Option::Some(m.control_points.len() as int));
            lemma_finish_subpath_wf(mp, first, false);
            assert(mq.subpaths.len() == n + 1);
            lemma_decode_range_snoc(mq, 0, n + 1);
            if first < len {
                assert(mo.subpaths.len() == n + 1);
                lemma_decode_range_snoc(mo, 0, n + 1);
                lemma_decode_range_frame(mo, mq, 0, n);
                let da = decode_subpath(mo, n);
                let db = decode_subpath(mq, n);
                assert(da.len() == len - first);
                assert(db.len() == len + 1 - first);
                assert forall|k: int| 0 <= k < db.len() implies #[trigger] db[k] == (da + seq![
                    QuadraticEvent::QuadraticTo(c, p),
                ])[k] by {
                    assert(db[k] == decode_endpoint(mq, first, first + k));
                    if k < len - first {
                        assert(da[k] == decode_endpoint(mo, first, first + k));
                        assert(mq.endpoints[first + k] == mo.endpoints[first + k]);
                        assert(mo.endpoint_ref_ok(first + k));
                    } else {
                        assert(first + k == len);
                        assert(mq.control_points[m.control_points.len() as int] == c);
                    }
                }
                assert(db =~= da + seq![QuadraticEvent::QuadraticTo(c, p)]);
            } else {
                assert(mo == m);
                lemma_decode_range_frame(m, mq, 0, n);
                let db = decode_subpath(mq, n);
                assert(db.len() == 1);
                assert(db[0] == decode_endpoint(mq, first, first));
                assert(db =~= seq![QuadraticEvent::MoveTo(p)]);
            }
            assert(decode_all(mq) =~= decode_all(mo) + ingest_step_head(m, first, e));
        },
        QuadraticEvent::Close => {
            if first < len {
                let q = m.endpoints[first].position;
                let mp = push_endpoint_model(m, q, Option::None);
                let mc = finish_subpath_model(mp, first, true);
                assert(ingest_step(m, first, e).0 == mc);
                assert(ingest_step(m, first, e).1 == len + 1);
                lemma_push_endpoint_wf(m, first, q, Option::None);
                lemma_finish_subpath_wf(mp, first, true);
                assert(finish_subpath_model(mc, len + 1, false) == mc);
                assert(mc.subpaths.len() == n + 1);
                assert(mo.subpaths.len() == n + 1);
                lemma_decode_range_snoc(mc, 0, n + 1);
                lemma_decode_range_snoc(mo, 0, n + 1);
                lemma_decode_range_frame(mo, mc, 0, n);
                let da = decode_subpath(mo, n);
                let db = decode_subpath(mc, n);
                assert(da.len() == len - first);
                assert(db.len() == len + 2 - first);
                assert forall|k: int| 0 <= k < db.len() implies #[trigger] db[k] == (da + seq![
                    QuadraticEvent::LineTo(q),
                    QuadraticEvent::Close,
                ])[k] by {
                    if k < len - first {
                        assert(db[k] == decode_endpoint(mc, first, first + k));
                        assert(da[k] == decode_endpoint(mo, first, first + k));
                        assert(mc.endpoints[first + k] == mo.endpoints[first + k]);
                    } else if k == len - first {
                        assert(db[k] == decode_endpoint(mc, first, len));
                    }
                }
                assert(db =~= da + seq![QuadraticEvent::LineTo(q), QuadraticEvent::Close]);
                assert(decode_all(mc) =~= decode_all(mo) + ingest_step_head(m, first, e));
            } else {
                assert(ingest_step(m, first, e).0 == m);
                assert(ingest_step(m, first, e).1 == len);
                assert(mo == m);
                assert(decode_all(m) =~= decode_all(mo) + ingest_step_head(m, first, e));
            }
        },
    }
}

/// Ingesting any stream suffix and decoding the result appends exactly the
/// recorded form of that suffix, threaded from the pending subpath's start
/// point.
proof fn lemma_round_trip_events(m: PathModel, first: int, s: Seq<QuadraticEvent>)
    requires
        m.wf_upto(first),
    ensures
        ({
            let r = ingest_events(m, first, s);
            decode_all(finish_subpath_model(r.0, r.1, false)) == decode_all(
                finish_subpath_model(m, first, false),
            ) + recorded_events(
                s,
                first < m.endpoints.len() as int,
                pending_start_point(m, first),
            )
        }),
    decreases s.len(),
{
    let r = ingest_events(m, first, s);
    let d0 = decode_all(finish_subpath_model(m, first, false));
    let len = m.endpoints.len() as int;
    if s.len() == 0 {
        assert(recorded_events(s, first < len, pending_start_point(m, first))
            =~= Seq::<QuadraticEvent>::empty());
        assert(d0 + Seq::<QuadraticEvent>::empty() =~= d0);
    } else {
        let e = s[0];
        let rest = s.drop_first();
        let r1 = ingest_step(m, first, e);
        assert(r == ingest_events(r1.0, r1.1, rest));
        lemma_ingest_step_wf(m, first, e);
        lemma_decode_ingest_step(m, first, e);
        match e {
            QuadraticEvent::MoveTo(p) => {
                assert(r1.0.endpoints.len() == len + 1);
                assert(r1.1 == len);
                assert(pending_start_point(r1.0, r1.1) == p);
            },
            QuadraticEvent::LineTo(p) => {
                assert(r1.1 == first);
                assert(r1.0.endpoints.len() == len + 1);
                if first < len {
                    assert(r1.0.endpoints[first] == m.endpoints[first]);
                    assert(pending_start_point(r1.0, r1.1) == pending_start_point(m, first));
                } else {
                    assert(pending_start_point(r1.0, r1.1) == p);
                }
            },
            QuadraticEvent::QuadraticTo(c, p) => {
                assert(r1.1 == first);
                assert(r1.0.endpoints.len() == len + 1);
                if first < len {
                    assert(r1.0.endpoints[first] == m.endpoints[first]);
                    assert(pending_start_point(r1.0, r1.1) == pending_start_point(m, first));
                } else {
                    assert(pending_start_point(r1.0, r1.1) == p);
                }
            },
            QuadraticEvent::Close => {
                assert(r1.1 == r1.0.endpoints.len() as int);
                lemma_recorded_events_start_irrelevant(
                    rest,
                    pending_start_point(r1.0, r1.1),
                    pending_start_point(m, first),
                );
            },
        }
        lemma_round_trip_events(r1.0, r1.1, rest);
        assert(decode_all(finish_subpath_model(r.0, r.1, false)) =~= d0 + recorded_events(
            s,
            first < len,
            pending_start_point(m, first),
        ));
    }
}

/// Round-trip, for any finite stream: decoding what ingestion appended to
/// a well-formed buffer reproduces exactly the recorded form of the
/// ingested stream — the stream itself where it is well formed, with each
/// effective `Close` preceded by its materialized closing edge, and with
/// malformed stretches degraded the way ingestion degrades them — after
/// everything the buffer already decoded to.
pub proof fn lemma_round_trip_general(m: PathModel, s: Seq<QuadraticEvent>)
    requires
        m.wf(),
    ensures
        decode_all(ingest_model(m, s)) == decode_all(m) + recorded_stream(s),
{
    let len = m.endpoints.len() as int;
    assert(finish_subpath_model(m, len, false) == m);
    lemma_round_trip_events(m, len, s);
    lemma_recorded_events_start_irrelevant(s, pending_start_point(m, len), Point { x: 0, y: 0 });
}

/// Round-trip: decoding what ingestion appended to a well-formed buffer
/// reproduces the ingested stream's events, with each `Close` preceded by
/// the materialized closing edge back to its subpath's start point, and
/// everything the buffer already decoded to in front.
pub proof fn lemma_round_trip(m: PathModel, s: Seq<QuadraticEvent>)
    requires
        m.wf(),
        stream_wf(s),
    ensures
        decode_all(ingest_model(m, s)) == decode_all(m) + expand_closes(s),
{
    lemma_round_trip_general(m, s);
    lemma_recorded_events_of_wf(s, false, Point { x: 0, y: 0 });
}

/// Round-trip from scratch, for any finite stream: a buffer built by one
/// ingestion decodes to exactly the stream's recorded form.
pub proof fn lemma_round_trip_general_from_empty(s: Seq<QuadraticEvent>)
    ensures
        decode_all(ingest_model(empty_path_model(), s)) == recorded_stream(s),
{
    assert(empty_path_model().wf());
    lemma_round_trip_general(empty_path_model(), s);
    assert(decode_all(empty_path_model()) + recorded_stream(s) =~= recorded_stream(s));
}

/// Round-trip from scratch: a buffer built by ingesting one well-formed
/// stream decodes to exactly that stream, with each `Close` preceded by its
/// materialized closing edge.
pub proof fn lemma_round_trip_from_empty(s: Seq<QuadraticEvent>)
    requires
        stream_wf(s),
    ensures
        decode_all(ingest_model(empty_path_model(), s)) == expand_closes(s),
{
    lemma_round_trip_general_from_empty(s);
    lemma_recorded_events_of_wf(s, false, Point { x: 0, y: 0 });
}

/// During ingestion: every finalized subpath's first endpoint owns no
/// arriving edge, and neither does the pending subpath's.
pub open spec fn heads_clear_upto(m: PathModel, first: int) -> bool {
    &&& m.subpath_heads_clear()
    &&& first < m.endpoints.len() as int ==> m.endpoints[first].control_point_index is None
}

/// Appending an endpoint leaves every finalized subpath's head untouched.
proof fn lemma_push_endpoint_heads_clear(m: PathModel, first: int, p: Point, r: Option<int>)
    requires
        m.wf_upto(first),
        m.subpath_heads_clear(),
    ensures
        push_endpoint_model(m, p, r).subpath_heads_clear(),
{
    let m1 = push_endpoint_model(m, p, r);
    assert forall|j: int| 0 <= j < m1.subpaths.len() implies ({
        let sp = #[trigger] m1.subpaths[j];
        m1.endpoints[sp.first_endpoint_index].control_point_index is None
    }) by {
        let sp = m.subpaths[j];
        assert(m.subpath_content_ok(j));
        assert(sp.first_endpoint_index < sp.last_endpoint_index);
        assert(m1.endpoints[sp.first_endpoint_index] == m.endpoints[sp.first_endpoint_index]);
    }
}

/// Finalizing the pending subpath records a subpath whose head is the
/// pending head, which is clear.
proof fn lemma_finish_subpath_heads_clear(m: PathModel, first: int, closed: bool)
    requires
        m.wf_upto(first),
        heads_clear_upto(m, first),
    ensures
        finish_subpath_model(m, first, closed).subpath_heads_clear(),
{
    let m1 = finish_subpath_model(m, first, closed);
    let n = m.subpaths.len() as int;
    assert forall|j: int| 0 <= j < m1.subpaths.len() implies ({
        let sp = #[trigger] m1.subpaths[j];
        m1.endpoints[sp.first_endpoint_index].control_point_index is None
    }) by {
        if j < n {
            assert(m1.subpaths[j] == m.subpaths[j]);
        }
    }
}

/// One ingestion step keeps every subpath head clear, provided an edge or
/// a `Close` only arrives while a subpath is open (as in a well-formed
/// stream): the command that opens each subpath is then a `MoveTo`, whose
/// endpoint carries no reference.
proof fn lemma_ingest_step_heads_clear(m: PathModel, first: int, e: QuadraticEvent)
    requires
        m.wf_upto(first),
        heads_clear_upto(m, first),
        !(e is MoveTo) ==> first < m.endpoints.len() as int,
    ensures
        heads_clear_upto(ingest_step(m, first, e).0, ingest_step(m, first, e).1),
{
    let len = m.endpoints.len() as int;
    match e {
        QuadraticEvent::MoveTo(p) => {
            lemma_finish_subpath_wf(m, first, false);
            lemma_finish_subpath_heads_clear(m, first, false);
            let m1 = finish_subpath_model(m, first, false);
            lemma_push_endpoint_heads_clear(m1, len, p, Option::None);
            let m2 = push_endpoint_model(m1, p, Option::None);
            assert(m2.endpoints[len].control_point_index is None);
        },
        QuadraticEvent::LineTo(p) => {
            lemma_push_endpoint_heads_clear(m, first, p, Option::None);
            let m2 = push_endpoint_model(m, p, Option::None);
            assert(m2.endpoints[first] == m.endpoints[first]);
        },
        QuadraticEvent::QuadraticTo(c, p) => {
            lemma_push_control_point_wf(m, first, c);
            let mc = PathModel {
                endpoints: m.endpoints,
                control_points: m.control_points.push(c),
                subpaths: m.subpaths,
            };
            lemma_push_endpoint_heads_clear(mc, first, p, Option::Some(
                m.control_points.len() as int,
            ));
            let m2 = push_endpoint_model(mc, p, Option::Some(m.control_points.len() as int));
            assert(m2.endpoints[first] == m.endpoints[first]);
        },
        QuadraticEvent::Close => {
            let q = m.endpoints[first].position;
            lemma_push_endpoint_wf(m, first, q, Option::None);
            lemma_push_endpoint_heads_clear(m, first, q, Option::None);
            let m1 = push_endpoint_model(m, q, Option::None);
            assert(m1.endpoints[first] == m.endpoints[first]);
            lemma_finish_subpath_heads_clear(m1, first, true);
        },
    }
}

/// Ingesting a whole well-formed stream suffix keeps every subpath head
/// clear.
proof fn lemma_ingest_events_heads_clear(m: PathModel, first: int, s: Seq<QuadraticEvent>)
    requires
        m.wf_upto(first),
        heads_clear_upto(m, first),
        stream_wf_from(s, first < m.endpoints.len() as int),
    ensures
        ({
            let r = ingest_events(m, first, s);
            heads_clear_upto(r.0, r.1)
        }),
    decreases s.len(),
{
    if s.len() > 0 {
        let e = s[0];
        let r1 = ingest_step(m, first, e);
        let len = m.endpoints.len() as int;
        lemma_ingest_step_wf(m, first, e);
        lemma_ingest_step_heads_clear(m, first, e);
        match e {
            QuadraticEvent::MoveTo(_) => {
                assert(r1.1 < r1.0.endpoints.len() as int);
            },
            QuadraticEvent::LineTo(_) => {
                assert(r1.1 < r1.0.endpoints.len() as int);
            },
            QuadraticEvent::QuadraticTo(_, _) => {
                assert(r1.1 < r1.0.endpoints.len() as int);
            },
            QuadraticEvent::Close => {
                assert(r1.1 == r1.0.endpoints.len() as int);
            },
        }
        lemma_ingest_events_heads_clear(r1.0, r1.1, s.drop_first());
    }
}

/// Ingesting a stream whose subpaths open with `MoveTo` leaves every
/// subpath's first endpoint without a control-point reference, the
/// hypothesis of the reversal involution law: it holds of every buffer
/// built from well-formed streams, and reversal itself preserves it.
pub proof fn lemma_ingest_model_heads_clear(m: PathModel, s: Seq<QuadraticEvent>)
    requires
        m.wf(),
        m.subpath_heads_clear(),
        stream_wf(s),
    ensures
        ingest_model(m, s).subpath_heads_clear(),
{
    let len = m.endpoints.len() as int;
    lemma_ingest_events_heads_clear(m, len, s);
    lemma_ingest_events_wf(m, len, s);
    let r = ingest_events(m, len, s);
    lemma_finish_subpath_heads_clear(r.0, r.1, false);
}

/// Reversal preserves curve identity: the one-subpath buffer recording
/// `MoveTo(a), QuadraticTo(c, b)`, reversed, decodes to
/// `MoveTo(b), QuadraticTo(c, a)`: the curve keeps its control point and
/// swaps its endpoints.
pub proof fn lemma_reverse_preserves_curve(a: Point, b: Point, c: Point)
    ensures
        ({
            let s = seq![QuadraticEvent::MoveTo(a), QuadraticEvent::QuadraticTo(c, b)];
            let m = ingest_model(empty_path_model(), s);
            let mr = PathModel {
                endpoints: reversed_endpoints(m.endpoints, 0, 2),
                control_points: m.control_points,
                subpaths: m.subpaths,
            };
            decode_all(mr) == seq![QuadraticEvent::MoveTo(b), QuadraticEvent::QuadraticTo(c, a)]
        }),
{
    let s = seq![QuadraticEvent::MoveTo(a), QuadraticEvent::QuadraticTo(c, b)];
    let e0 = empty_path_model();
    let t = s.drop_first();
    assert(s[0] == QuadraticEvent::MoveTo(a));
    assert(t.len() == 1);
    assert(t[0] == s[1]);
    assert(s[1] == QuadraticEvent::QuadraticTo(c, b));
    assert(t.drop_first().len() == 0);

    let r1 = ingest_step(e0, 0, s[0]);
    let r2 = ingest_step(r1.0, r1.1, t[0]);
    assert(ingest_events(e0, 0, s) == ingest_events(r1.0, r1.1, t));
    assert(ingest_events(r1.0, r1.1, t) == ingest_events(r2.0, r2.1, t.drop_first()));
    assert(ingest_events(r2.0, r2.1, t.drop_first()) == (r2.0, r2.1));

    assert(finish_subpath_model(e0, 0, false) == e0);
    let m1 = push_endpoint_model(e0, a, Option::None);
    assert(r1 == (m1, 0int));

    let mc = PathModel {
        endpoints: m1.endpoints,
        control_points: m1.control_points.push(c),
        subpaths: m1.subpaths,
    };
    let m2 = push_endpoint_model(mc, b, Option::Some(0));
    assert(r2 == (m2, 0int));

    let m = ingest_model(e0, s);
    assert(m == finish_subpath_model(m2, 0, false));
    assert(m2.endpoints.len() == 2);
    assert(m.subpaths.len() == 1);
    assert(m.subpaths[0] == SubpathModel {
        first_endpoint_index: 0,
        last_endpoint_index: 2,
        closed: false,
    });
    assert(m.endpoints[0] == EndpointModel {
        position: a,
        control_point_index: Option::None,
        subpath_index: 0,
    });
    assert(m.endpoints[1] == EndpointModel {
        position: b,
        control_point_index: Option::Some(0),
        subpath_index: 0,
    });
    assert(m.control_points[0] == c);

    let re = reversed_endpoints(m.endpoints, 0, 2);
    assert(re.len() == 2);
    assert(re[0] == EndpointModel {
        position: b,
        control_point_index: Option::None,
        subpath_index: 0,
    });
    assert(re[1] == EndpointModel {
        position: a,
        control_point_index: Option::Some(0),
        subpath_index: 0,
    });
    let mr = PathModel { endpoints: re, control_points: m.control_points, subpaths: m.subpaths };

    assert(decode_all(mr) == decode_range(mr, 0, 1));
    assert(decode_range(mr, 0, 1) == decode_subpath(mr, 0) + decode_range(mr, 1, 1));
    let d = decode_subpath(mr, 0);
    assert(d.len() == 2);
    assert(d[0] == decode_endpoint(mr, 0, 0));
    assert(d[0] == QuadraticEvent::MoveTo(b));
    assert(d[1] == decode_endpoint(mr, 0, 1));
    assert(d[1] == QuadraticEvent::QuadraticTo(c, a));
    assert(decode_all(mr) =~= seq![QuadraticEvent::MoveTo(b), QuadraticEvent::QuadraticTo(c, a)]);
}

} // verus!

