use path_buffer::buffer::PathBuffer;
use path_buffer::geometry::{LineSegment, Point, QuadraticBezierSegment, QuadraticEvent, Segment};
use path_buffer::segments::QuadraticSegments;
use path_buffer::stream::PathBufferStream;

// Coordinates are fixed-point; these tests use a scale of 1_000_000 per
// unit, so the classic degeneracy tolerance of 0.001 units is 1000.
const TOLERANCE: i64 = 1000;

fn pt(x: i32, y: i32) -> Point {
    Point { x, y }
}

fn decode_all_events(buffer: &PathBuffer) -> Vec<QuadraticEvent> {
    let mut stream = PathBufferStream::new(buffer);
    stream.collect_remaining()
}

fn decompose(events: Vec<QuadraticEvent>) -> Vec<(Segment, u32)> {
    let mut segments = QuadraticSegments::new(events, TOLERANCE);
    segments.collect_remaining()
}

#[test]
fn empty_stream_leaves_buffer_empty() {
    let mut buffer = PathBuffer::new();
    buffer.add_stream(&vec![]);
    assert_eq!(buffer.endpoints.len(), 0);
    assert_eq!(buffer.control_points.len(), 0);
    assert_eq!(buffer.subpaths.len(), 0);
    let decoded = decode_all_events(&buffer);
    assert!(decoded.is_empty());
}

#[test]
fn round_trip_open_subpath() {
    let events = vec![
        QuadraticEvent::MoveTo(pt(0, 0)),
        QuadraticEvent::LineTo(pt(10, 0)),
        QuadraticEvent::QuadraticTo(pt(5, 5), pt(10, 10)),
    ];
    let mut buffer = PathBuffer::new();
    buffer.add_stream(&events);
    assert_eq!(decode_all_events(&buffer), events);
}

#[test]
fn round_trip_materializes_closing_edge() {
    let events = vec![
        QuadraticEvent::MoveTo(pt(0, 0)),
        QuadraticEvent::LineTo(pt(10, 0)),
        QuadraticEvent::QuadraticTo(pt(5, 5), pt(10, 10)),
        QuadraticEvent::Close,
        QuadraticEvent::MoveTo(pt(20, 20)),
        QuadraticEvent::LineTo(pt(30, 20)),
    ];
    let mut buffer = PathBuffer::new();
    buffer.add_stream(&events);
    let expected = vec![
        QuadraticEvent::MoveTo(pt(0, 0)),
        QuadraticEvent::LineTo(pt(10, 0)),
        QuadraticEvent::QuadraticTo(pt(5, 5), pt(10, 10)),
        QuadraticEvent::LineTo(pt(0, 0)),
        QuadraticEvent::Close,
        QuadraticEvent::MoveTo(pt(20, 20)),
        QuadraticEvent::LineTo(pt(30, 20)),
    ];
    assert_eq!(decode_all_events(&buffer), expected);
}

#[test]
fn reverse_twice_restores_subpath() {
    let events = vec![
        QuadraticEvent::MoveTo(pt(0, 0)),
        QuadraticEvent::LineTo(pt(10, 0)),
        QuadraticEvent::QuadraticTo(pt(15, 5), pt(10, 10)),
        QuadraticEvent::LineTo(pt(0, 10)),
    ];
    let mut buffer = PathBuffer::new();
    buffer.add_stream(&events);
    let original_endpoints = buffer.endpoints.clone();
    buffer.reverse_subpath(0);
    buffer.reverse_subpath(0);
    assert_eq!(buffer.endpoints, original_endpoints);
    assert_eq!(decode_all_events(&buffer), events);
}

#[test]
fn reverse_swaps_curve_endpoints_and_keeps_control_point() {
    let a = pt(0, 0);
    let b = pt(20, 0);
    let c = pt(10, 10);
    let mut buffer = PathBuffer::new();
    buffer.add_stream(&vec![QuadraticEvent::MoveTo(a), QuadraticEvent::QuadraticTo(c, b)]);
    buffer.reverse_subpath(0);
    let expected = vec![QuadraticEvent::MoveTo(b), QuadraticEvent::QuadraticTo(c, a)];
    assert_eq!(decode_all_events(&buffer), expected);
}

#[test]
fn reverse_single_endpoint_subpath_is_stable() {
    let mut buffer = PathBuffer::new();
    buffer.add_stream(&vec![QuadraticEvent::MoveTo(pt(7, 9))]);
    buffer.reverse_subpath(0);
    assert_eq!(decode_all_events(&buffer), vec![QuadraticEvent::MoveTo(pt(7, 9))]);
}

#[test]
fn degenerate_edge_is_filtered() {
    let events = vec![
        QuadraticEvent::MoveTo(pt(0, 0)),
        QuadraticEvent::LineTo(pt(0, 100)),
        QuadraticEvent::LineTo(pt(1_000_000, 0)),
    ];
    let segments = decompose(events);
    let expected = vec![
        (Segment::Line(LineSegment { from: pt(0, 0), to: pt(1_000_000, 0) }), 0u32),
    ];
    assert_eq!(segments, expected);
}

#[test]
fn suppressed_steps_accumulate_from_last_emitted_point() {
    let events = vec![
        QuadraticEvent::MoveTo(pt(0, 0)),
        QuadraticEvent::LineTo(pt(0, 600)),
        QuadraticEvent::LineTo(pt(0, 1200)),
    ];
    let segments = decompose(events);
    let expected = vec![
        (Segment::Line(LineSegment { from: pt(0, 0), to: pt(0, 1200) }), 0u32),
    ];
    assert_eq!(segments, expected);
}

#[test]
fn closed_path_decomposes_in_order() {
    let events = vec![
        QuadraticEvent::MoveTo(pt(0, 0)),
        QuadraticEvent::LineTo(pt(1_000_000, 0)),
        QuadraticEvent::LineTo(pt(1_000_000, 1_000_000)),
        QuadraticEvent::Close,
    ];
    let segments = decompose(events);
    let expected = vec![
        (Segment::Line(LineSegment { from: pt(0, 0), to: pt(1_000_000, 0) }), 0u32),
        (Segment::Line(LineSegment { from: pt(1_000_000, 0), to: pt(1_000_000, 1_000_000) }), 0u32),
        (Segment::Line(LineSegment { from: pt(1_000_000, 1_000_000), to: pt(0, 0) }), 0u32),
    ];
    assert_eq!(segments, expected);
}

#[test]
fn quadratic_decomposes_with_control_point() {
    let events = vec![
        QuadraticEvent::MoveTo(pt(0, 0)),
        QuadraticEvent::QuadraticTo(pt(5_000, 9_000), pt(10_000, 0)),
    ];
    let segments = decompose(events);
    let expected = vec![
        (
            Segment::Quadratic(QuadraticBezierSegment {
                from: pt(0, 0),
                ctrl: pt(5_000, 9_000),
                to: pt(10_000, 0),
            }),
            0u32,
        ),
    ];
    assert_eq!(segments, expected);
}

#[test]
fn suppressed_close_emits_nothing() {
    let events = vec![
        QuadraticEvent::MoveTo(pt(0, 0)),
        QuadraticEvent::LineTo(pt(500, 0)),
        QuadraticEvent::Close,
    ];
    // The edge and the synthesized closing edge are both sub-tolerance.
    assert_eq!(decompose(events), vec![]);
}

#[test]
fn suppressed_close_resets_current_point_to_start() {
    let events = vec![
        QuadraticEvent::MoveTo(pt(0, 0)),
        QuadraticEvent::LineTo(pt(2000, 0)),
        QuadraticEvent::LineTo(pt(500, 0)),
        QuadraticEvent::Close,
        QuadraticEvent::LineTo(pt(1800, 0)),
    ];
    // The closing edge (500,0) -> (0,0) is suppressed, but the current
    // point still becomes the start point, so the next edge runs from it.
    let segments = decompose(events);
    let expected = vec![
        (Segment::Line(LineSegment { from: pt(0, 0), to: pt(2000, 0) }), 0u32),
        (Segment::Line(LineSegment { from: pt(2000, 0), to: pt(500, 0) }), 0u32),
        (Segment::Line(LineSegment { from: pt(0, 0), to: pt(1800, 0) }), 0u32),
    ];
    assert_eq!(segments, expected);
}

#[test]
fn ordinal_advances_per_move_to() {
    let events = vec![
        QuadraticEvent::MoveTo(pt(0, 0)),
        QuadraticEvent::LineTo(pt(1_000_000, 0)),
        QuadraticEvent::MoveTo(pt(0, 0)),
        QuadraticEvent::MoveTo(pt(5, 5)),
        QuadraticEvent::LineTo(pt(5, 2_000_000)),
    ];
    let segments = decompose(events);
    let expected = vec![
        (Segment::Line(LineSegment { from: pt(0, 0), to: pt(1_000_000, 0) }), 0u32),
        (Segment::Line(LineSegment { from: pt(5, 5), to: pt(5, 2_000_000) }), 2u32),
    ];
    assert_eq!(segments, expected);
}

#[test]
fn subpath_range_selects_middle_subpaths() {
    let events = vec![
        QuadraticEvent::MoveTo(pt(0, 0)),
        QuadraticEvent::LineTo(pt(1, 0)),
        QuadraticEvent::MoveTo(pt(10, 0)),
        QuadraticEvent::LineTo(pt(11, 0)),
        QuadraticEvent::Close,
        QuadraticEvent::MoveTo(pt(20, 0)),
        QuadraticEvent::QuadraticTo(pt(21, 1), pt(22, 0)),
        QuadraticEvent::MoveTo(pt(30, 0)),
        QuadraticEvent::LineTo(pt(31, 0)),
    ];
    let mut buffer = PathBuffer::new();
    buffer.add_stream(&events);
    assert_eq!(buffer.subpaths.len(), 4);
    let mut stream = PathBufferStream::subpath_range(&buffer, 1..3);
    let decoded = stream.collect_remaining();
    let expected = vec![
        QuadraticEvent::MoveTo(pt(10, 0)),
        QuadraticEvent::LineTo(pt(11, 0)),
        QuadraticEvent::LineTo(pt(10, 0)),
        QuadraticEvent::Close,
        QuadraticEvent::MoveTo(pt(20, 0)),
        QuadraticEvent::QuadraticTo(pt(21, 1), pt(22, 0)),
    ];
    assert_eq!(decoded, expected);
    assert!(matches!(decoded[0], QuadraticEvent::MoveTo(_)));
    assert!(matches!(decoded[4], QuadraticEvent::MoveTo(_)));
}

#[test]
fn empty_subpath_range_yields_nothing() {
    let mut buffer = PathBuffer::new();
    buffer.add_stream(&vec![QuadraticEvent::MoveTo(pt(0, 0)), QuadraticEvent::LineTo(pt(1, 0))]);
    let mut stream = PathBufferStream::subpath_range(&buffer, 1..1);
    assert_eq!(stream.next(), None);
    assert!(stream.collect_remaining().is_empty());
}

#[test]
fn empty_subpath_range_beyond_count_yields_nothing() {
    let mut buffer = PathBuffer::new();
    buffer.add_stream(&vec![QuadraticEvent::MoveTo(pt(0, 0)), QuadraticEvent::LineTo(pt(1, 0))]);
    let mut stream = PathBufferStream::subpath_range(&buffer, 5..5);
    assert_eq!(stream.next(), None);
}

#[test]
fn ordinals_continue_across_ingestion_calls() {
    let mut buffer = PathBuffer::new();
    buffer.add_stream(&vec![QuadraticEvent::MoveTo(pt(0, 0)), QuadraticEvent::LineTo(pt(1, 0))]);
    buffer.add_stream(&vec![QuadraticEvent::MoveTo(pt(2, 0)), QuadraticEvent::LineTo(pt(3, 0))]);
    assert_eq!(buffer.subpaths.len(), 2);
    assert_eq!(buffer.endpoints[0].subpath_index, 0);
    assert_eq!(buffer.endpoints[2].subpath_index, 1);
    assert_eq!(buffer.subpaths[1].first_endpoint_index, 2);
    assert_eq!(buffer.subpaths[1].last_endpoint_index, 4);
}

#[test]
fn close_before_any_move_to_records_nothing() {
    let mut buffer = PathBuffer::new();
    buffer.add_stream(&vec![QuadraticEvent::Close]);
    assert_eq!(buffer.endpoints.len(), 0);
    assert_eq!(buffer.subpaths.len(), 0);
    buffer.add_stream(&vec![QuadraticEvent::Close, QuadraticEvent::MoveTo(pt(1, 1))]);
    assert_eq!(buffer.subpaths.len(), 1);
    assert_eq!(decode_all_events(&buffer), vec![QuadraticEvent::MoveTo(pt(1, 1))]);
}

#[test]
fn headless_edge_starts_a_subpath_and_decodes_as_move_to() {
    let mut buffer = PathBuffer::new();
    buffer.add_stream(&vec![
        QuadraticEvent::LineTo(pt(1, 2)),
        QuadraticEvent::QuadraticTo(pt(3, 4), pt(5, 6)),
    ]);
    assert_eq!(buffer.subpaths.len(), 1);
    let expected = vec![
        QuadraticEvent::MoveTo(pt(1, 2)),
        QuadraticEvent::QuadraticTo(pt(3, 4), pt(5, 6)),
    ];
    assert_eq!(decode_all_events(&buffer), expected);
}

#[test]
fn lone_move_to_is_recorded_open() {
    let mut buffer = PathBuffer::new();
    buffer.add_stream(&vec![QuadraticEvent::MoveTo(pt(4, 4))]);
    assert_eq!(buffer.endpoints.len(), 1);
    assert_eq!(buffer.subpaths.len(), 1);
    assert!(!buffer.subpaths[0].closed);
    assert_eq!(decode_all_events(&buffer), vec![QuadraticEvent::MoveTo(pt(4, 4))]);
}

#[test]
fn close_duplicates_first_endpoint_position() {
    let mut buffer = PathBuffer::new();
    buffer.add_stream(&vec![
        QuadraticEvent::MoveTo(pt(3, 4)),
        QuadraticEvent::LineTo(pt(9, 4)),
        QuadraticEvent::Close,
    ]);
    assert_eq!(buffer.endpoints.len(), 3);
    assert!(buffer.subpaths[0].closed);
    let closing = buffer.endpoints[2];
    assert_eq!(closing.position, pt(3, 4));
    assert_eq!(closing.control_point_index, None);
}

#[test]
fn quadratic_stores_control_point_reference() {
    let mut buffer = PathBuffer::new();
    buffer.add_stream(&vec![
        QuadraticEvent::MoveTo(pt(0, 0)),
        QuadraticEvent::QuadraticTo(pt(1, 2), pt(3, 4)),
    ]);
    assert_eq!(buffer.control_points.len(), 1);
    assert_eq!(buffer.control_points[0], pt(1, 2));
    assert_eq!(buffer.endpoints[0].control_point_index, None);
    assert_eq!(buffer.endpoints[1].control_point_index, Some(0));
}

#[test]
fn subpath_range_method_reports_endpoint_indices() {
    let mut buffer = PathBuffer::new();
    buffer.add_stream(&vec![
        QuadraticEvent::MoveTo(pt(0, 0)),
        QuadraticEvent::LineTo(pt(1, 0)),
        QuadraticEvent::MoveTo(pt(2, 0)),
        QuadraticEvent::LineTo(pt(3, 0)),
    ]);
    let range = buffer.subpaths[1].range();
    assert_eq!(range, 2..4);
}

#[test]
fn exhausted_streams_stay_exhausted() {
    let mut buffer = PathBuffer::new();
    buffer.add_stream(&vec![QuadraticEvent::MoveTo(pt(0, 0))]);
    let mut stream = PathBufferStream::new(&buffer);
    assert_eq!(stream.next(), Some(QuadraticEvent::MoveTo(pt(0, 0))));
    assert_eq!(stream.next(), None);
    assert_eq!(stream.next(), None);
    let mut segments = QuadraticSegments::new(vec![], TOLERANCE);
    assert_eq!(segments.next(), None);
    assert_eq!(segments.next(), None);
}
