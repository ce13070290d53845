//! Decode stream: lazily reconstructs a path-command stream from a
//! [`PathBuffer`], over all subpaths or a contiguous subpath-index range.

use vstd::prelude::*;

use crate::buffer::{PathBuffer, PathModel};
use crate::geometry::QuadraticEvent;

verus! {

/// The command that endpoint `i` of a subpath whose range begins at
/// `sp_first` decodes to: `MoveTo` for the subpath's first endpoint, then
/// `LineTo` for a line arrival and `QuadraticTo` for a curve arrival.
pub open spec fn decode_endpoint(m: PathModel, sp_first: int, i: int) -> QuadraticEvent {
    let ep = m.endpoints[i];
    if i == sp_first {
        QuadraticEvent::MoveTo(ep.position)
    } else {
        match ep.control_point_index {
            Option::None => QuadraticEvent::LineTo(ep.position),
            Option::Some(ci) => QuadraticEvent::QuadraticTo(m.control_points[ci], ep.position),
        }
    }
}

/// The commands of subpath `j` from endpoint cursor `ep` on, with the
/// trailing `Close` of a closed subpath.
pub open spec fn decode_subpath_from(m: PathModel, j: int, ep: int) -> Seq<QuadraticEvent> {
    let sp = m.subpaths[j];
    Seq::new(
        (sp.last_endpoint_index - ep) as nat,
        |k: int| decode_endpoint(m, sp.first_endpoint_index, ep + k),
    ) + if sp.closed {
        seq![QuadraticEvent::Close]
    } else {
        Seq::<QuadraticEvent>::empty()
    }
}

/// All commands of subpath `j`.
pub open spec fn decode_subpath(m: PathModel, j: int) -> Seq<QuadraticEvent> {
    decode_subpath_from(m, j, m.subpaths[j].first_endpoint_index)
}

/// All commands of the subpaths with indices in `[j, end)`, in order.
pub open spec fn decode_range(m: PathModel, j: int, end: int) -> Seq<QuadraticEvent>
    decreases end - j,
{
    if j < end {
        decode_subpath(m, j) + decode_range(m, j + 1, end)
    } else {
        Seq::empty()
    }
}

/// Decoding a non-empty subpath range splits off its last subpath.
pub proof fn lemma_decode_range_snoc(m: PathModel, j: int, end: int)
    requires
        j < end,
    ensures
        decode_range(m, j, end) == decode_range(m, j, end - 1) + decode_subpath(m, end - 1),
    decreases end - j,
{
    if j + 1 == end {
        assert(decode_range(m, j + 1, end) =~= Seq::<QuadraticEvent>::empty());
        assert(decode_range(m, j, end - 1) =~= Seq::<QuadraticEvent>::empty());
        assert(decode_range(m, j, end) =~= decode_range(m, j, end - 1) + decode_subpath(
            m,
            end - 1,
        ));
    } else {
        lemma_decode_range_snoc(m, j + 1, end);
        assert(decode_range(m, j, end) == decode_subpath(m, j) + decode_range(m, j + 1, end));
        assert(decode_range(m, j, end - 1) == decode_subpath(m, j) + decode_range(
            m,
            j + 1,
            end - 1,
        ));
        assert(decode_range(m, j, end) =~= decode_range(m, j, end - 1) + decode_subpath(
            m,
            end - 1,
        ));
    }
}

/// Decoding a subpath range reads only the subpath table entries of that
/// range, the endpoints they cover, and the control points those endpoints
/// reference: a buffer extended by appends decodes the old range unchanged.
pub proof fn lemma_decode_range_frame(ma: PathModel, mb: PathModel, j: int, end: int)
    requires
        0 <= j,
        end <= ma.subpaths.len(),
        end <= mb.subpaths.len(),
        forall|j2: int| j <= j2 < end ==> mb.subpaths[j2] == ma.subpaths[j2],
        forall|j2: int| j <= j2 < end ==> #[trigger] ma.subpath_content_ok(j2),
        forall|i: int| 0 <= i < ma.endpoints.len() ==> #[trigger] ma.endpoint_ref_ok(i),
        ma.endpoints.len() <= mb.endpoints.len(),
        forall|i: int| 0 <= i < ma.endpoints.len() ==> mb.endpoints[i] == ma.endpoints[i],
        ma.control_points.len() <= mb.control_points.len(),
        forall|i: int|
            0 <= i < ma.control_points.len() ==> mb.control_points[i] == ma.control_points[i],
    ensures
        decode_range(mb, j, end) == decode_range(ma, j, end),
    decreases end - j,
{
    if j < end {
        assert(ma.subpath_content_ok(j));
        let sp = ma.subpaths[j];
        assert(mb.subpaths[j] == ma.subpaths[j]);
        let da = decode_subpath(ma, j);
        let db = decode_subpath(mb, j);
        assert(db.len() == da.len());
        assert forall|k: int| 0 <= k < da.len() implies #[trigger] db[k] == da[k] by {
            if k < sp.last_endpoint_index - sp.first_endpoint_index {
                let i = sp.first_endpoint_index + k;
                assert(mb.endpoints[i] == ma.endpoints[i]);
                assert(ma.endpoint_ref_ok(i));
                assert(da[k] == decode_endpoint(ma, sp.first_endpoint_index, i));
                assert(db[k] == decode_endpoint(mb, sp.first_endpoint_index, i));
            }
        }
        assert(decode_subpath(mb, j) =~= decode_subpath(ma, j));
        lemma_decode_range_frame(ma, mb, j + 1, end);
    }
}

/// All commands of every subpath of the buffer, in order.
pub open spec fn decode_all(m: PathModel) -> Seq<QuadraticEvent> {
    decode_range(m, 0, m.subpaths.len() as int)
}

/// Every decoded subpath is non-empty and begins with the `MoveTo` of its
/// first endpoint's position, whatever subpath range is selected.
pub proof fn lemma_decoded_subpath_begins_with_move_to(m: PathModel, j: int)
    requires
        m.wf(),
        0 <= j < m.subpaths.len(),
    ensures
        decode_subpath(m, j).len() > 0,
        decode_subpath(m, j)[0] == QuadraticEvent::MoveTo(
            m.endpoints[m.subpaths[j].first_endpoint_index].position,
        ),
{
    assert(m.subpath_content_ok(j));
    assert(m.subpaths[j].first_endpoint_index == m.expected_start(j));
}

/// Converts a path buffer back into a series of path commands.
///
/// A finite, forward-only producer: each call to [`Self::next`] yields the
/// next command of [`Self::remaining`], holding read-only access to the
/// buffer for as long as the stream lives.
#[derive(Clone)]
pub struct PathBufferStream<'a> {
    path_buffer: &'a PathBuffer,
    endpoint_index: usize,
    subpath_index: usize,
    last_subpath_index: usize,
}

impl<'a> PathBufferStream<'a> {
    /// The model of the buffer this stream reads from.
    pub closed spec fn buffer(self) -> PathModel {
        self.path_buffer@
    }

    /// Internal consistency: the buffer is well formed, and while the
    /// stream is not yet exhausted its subpath bounds are in range and the
    /// endpoint cursor sits inside the current subpath's range.  An
    /// exhausted stream may carry any equal pair of subpath bounds.
    pub closed spec fn wf(self) -> bool {
        &&& self.path_buffer@.wf()
        &&& self.subpath_index <= self.last_subpath_index
        &&& self.subpath_index < self.last_subpath_index ==> {
            let sp = self.path_buffer@.subpaths[self.subpath_index as int];
            &&& self.last_subpath_index <= self.path_buffer@.subpaths.len()
            &&& sp.first_endpoint_index <= self.endpoint_index as int <= sp.last_endpoint_index
        }
    }

    /// The commands this stream has yet to produce: the rest of the current
    /// subpath, then every later subpath below the upper bound.
    pub closed spec fn remaining(self) -> Seq<QuadraticEvent> {
        if self.subpath_index < self.last_subpath_index {
            decode_subpath_from(
                self.path_buffer@,
                self.subpath_index as int,
                self.endpoint_index as int,
            ) + decode_range(
                self.path_buffer@,
                self.subpath_index as int + 1,
                self.last_subpath_index as int,
            )
        } else {
            Seq::empty()
        }
    }

    /// Prepares a path buffer stream to stream all subpaths from the given
    /// path buffer.
    pub fn new<'b>(path_buffer: &'b PathBuffer) -> (r: PathBufferStream<'b>)
        requires
            path_buffer@.wf(),
        ensures
            r.wf(),
            r.buffer() == path_buffer@,
            r.remaining() == decode_range(path_buffer@, 0, path_buffer@.subpaths.len() as int),
    {
        let r = PathBufferStream {
            path_buffer,
            endpoint_index: 0,
            subpath_index: 0,
            last_subpath_index: path_buffer.subpaths.len(),
        };
        proof {
            let m = path_buffer@;
            let n = m.subpaths.len() as int;
            if 0 < n {
                assert(m.subpaths[0].first_endpoint_index == m.expected_start(0));
                assert(decode_subpath_from(m, 0, 0) == decode_subpath(m, 0));
                assert(decode_range(m, 0, n) == decode_subpath(m, 0) + decode_range(m, 1, n));
            }
        }
        r
    }

    /// Prepares a path buffer stream to stream only the subpaths with
    /// indices in the given range from the given path buffer.
    ///
    /// An empty range of any value, even past the subpath count, yields an
    /// exhausted stream: it never reads the subpath table.
    pub fn subpath_range<'b>(path_buffer: &'b PathBuffer, subpath_range: core::ops::Range<usize>)
        -> (r: PathBufferStream<'b>)
        requires
            path_buffer@.wf(),
            subpath_range.start <= subpath_range.end,
            subpath_range.start < subpath_range.end ==> subpath_range.end
                <= path_buffer@.subpaths.len(),
        ensures
            r.wf(),
            r.buffer() == path_buffer@,
            r.remaining() == decode_range(
                path_buffer@,
                subpath_range.start as int,
                subpath_range.end as int,
            ),
    {
        let first_endpoint_index = if subpath_range.start == subpath_range.end {
            0
        } else {
            path_buffer.subpaths[subpath_range.start].first_endpoint_index
        };
        let r = PathBufferStream {
            path_buffer,
            endpoint_index: first_endpoint_index,
            subpath_index: subpath_range.start,
            last_subpath_index: subpath_range.end,
        };
        proof {
            let m = path_buffer@;
            let j = subpath_range.start as int;
            let end = subpath_range.end as int;
            if j < end {
                assert(m.subpath_content_ok(j));
                assert(decode_subpath_from(m, j, m.subpaths[j].first_endpoint_index)
                    == decode_subpath(m, j));
                assert(decode_range(m, j, end) == decode_subpath(m, j) + decode_range(
                    m,
                    j + 1,
                    end,
                ));
            }
        }
        r
    }

    /// Produces the next command, or `None` once the stream is exhausted.
    #[verifier::rlimit(60)]
    pub fn next(&mut self) -> (r: Option<QuadraticEvent>)
        requires
            old(self).wf(),
        ensures
            final(self).wf(),
            final(self).buffer() == old(self).buffer(),
            match r {
                Option::None => old(self).remaining().len() == 0 && final(self).remaining().len()
                    == 0,
                Option::Some(e) => old(self).remaining().len() > 0 && e == old(self).remaining()[0]
                    && final(self).remaining() == old(self).remaining().drop_first(),
            },
    {
        loop
            invariant
                self.wf(),
                self.path_buffer == old(self).path_buffer,
                self.remaining() == old(self).remaining(),
            decreases self.last_subpath_index - self.subpath_index,
        {
            if self.subpath_index == self.last_subpath_index {
                return None;
            }
            let ghost m = self.path_buffer@;
            let ghost j = self.subpath_index as int;
            let ghost last = self.last_subpath_index as int;
            proof {
                assert(m.subpath_content_ok(j));
            }
            let subpath = self.path_buffer.subpaths[self.subpath_index];
            if self.endpoint_index == subpath.last_endpoint_index {
                self.subpath_index += 1;
                proof {
                    assert(decode_subpath_from(m, j, m.subpaths[j].last_endpoint_index)
                        =~= if m.subpaths[j].closed {
                        seq![QuadraticEvent::Close]
                    } else {
                        Seq::<QuadraticEvent>::empty()
                    });
                    if j + 1 < last {
                        assert(m.subpaths[j + 1].first_endpoint_index == m.expected_start(j + 1));
                        assert(decode_subpath_from(m, j + 1, m.subpaths[j + 1].first_endpoint_index)
                            == decode_subpath(m, j + 1));
                        assert(decode_range(m, j + 1, last) == decode_subpath(m, j + 1)
                            + decode_range(m, j + 2, last));
                    }
                    assert(self.remaining() =~= decode_range(m, j + 1, last));
                }
                if subpath.closed {
                    proof {
                        assert(old(self).remaining()[0] == QuadraticEvent::Close);
                        assert(old(self).remaining().drop_first() =~= self.remaining());
                    }
                    return Some(QuadraticEvent::Close);
                }
            } else {
                let endpoint_index = self.endpoint_index;
                self.endpoint_index = endpoint_index + 1;
                let ghost ep = endpoint_index as int;
                proof {
                    assert(m.endpoint_ref_ok(ep));
                    assert(old(self).remaining()[0] == decode_endpoint(
                        m,
                        m.subpaths[j].first_endpoint_index,
                        ep,
                    ));
                    assert(old(self).remaining().drop_first() =~= self.remaining());
                }
                let endpoint = self.path_buffer.endpoints[endpoint_index];
                if endpoint_index == subpath.first_endpoint_index {
                    return Some(QuadraticEvent::MoveTo(endpoint.position));
                }
                match endpoint.control_point_index {
                    None => {
                        return Some(QuadraticEvent::LineTo(endpoint.position));
                    },
                    Some(control_point_index) => {
                        let control_point = self.path_buffer.control_points[control_point_index];
                        return Some(QuadraticEvent::QuadraticTo(control_point, endpoint.position));
                    },
                }
            }
        }
    }

    /// Drains the stream, returning every command it had yet to produce.
    pub fn collect_remaining(&mut self) -> (r: Vec<QuadraticEvent>)
        requires
            old(self).wf(),
        ensures
            final(self).wf(),
            r@ == old(self).remaining(),
            final(self).remaining().len() == 0,
    {
        let mut out: Vec<QuadraticEvent> = Vec::new();
        loop
            invariant
                self.wf(),
                out@ + self.remaining() == old(self).remaining(),
            decreases self.remaining().len(),
        {
            let next_event = self.next();
            match next_event {
                Some(e) => {
                    out.push(e);
                    proof {
                        assert(out@ + self.remaining() =~= old(self).remaining());
                    }
                },
                None => {
                    proof {
                        assert(out@ =~= old(self).remaining());
                    }
                    return out;
                },
            }
        }
    }
}

} // verus!
