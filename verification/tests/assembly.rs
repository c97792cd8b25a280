use flatten::stroke::{CapPlan, CuspPlan, JoinPlan, Lowering, LoweredPath, MiterSide, StrokeCtx};

#[derive(Clone, Copy, Debug, PartialEq, Eq)]
struct Pt {
    x: i64,
    y: i64,
}

fn pt(x: i64, y: i64) -> Pt {
    Pt { x, y }
}

/// A test primitive: endpoints plus a tag saying which operation emitted
/// it (0 line, 1 arc chord, 2 offset-curve piece, 3 evolute piece).
#[derive(Clone, Copy, Debug, PartialEq, Eq)]
struct Prim {
    a: Pt,
    b: Pt,
    tag: u8,
}

/// A stand-in curve segment; the test backend's flattenings are fixed
/// steps, so the segment itself carries nothing.
struct Seg;

impl Lowering for Prim {
    type Pt = Pt;
    type Seg = Seg;
    type Sc = i64;

    fn s_start(self) -> Pt {
        self.a
    }

    fn s_end(self) -> Pt {
        self.b
    }

    fn line(p0: Pt, p1: Pt) -> Prim {
        Prim { a: p0, b: p1, tag: 0 }
    }

    fn lower_arc(p0: Pt, p1: Pt, k: i64, segs: &mut Vec<Prim>, _tol: i64) {
        let mid = Pt { x: (p0.x + p1.x) / 2, y: (p0.y + p1.y) / 2 + k };
        segs.push(Prim { a: p0, b: mid, tag: 1 });
        segs.push(Prim { a: mid, b: p1, tag: 1 });
    }

    fn lower_espc(_seg: &Seg, path: &mut LoweredPath<Prim, Pt>, _t0: i64, _t1: i64, _d: i64, _tol: i64) {
        let p = path.last_point();
        path.push_prim(Prim { a: p, b: pt(p.x + 10, p.y), tag: 2 });
    }

    fn lower_es_evolute(_seg: &Seg, path: &mut LoweredPath<Prim, Pt>, _t0: i64, _t1: i64, _tol: i64) {
        let p = path.last_point();
        path.push_prim(Prim { a: p, b: pt(p.x, p.y + 7), tag: 3 });
    }

    fn reverse(self) -> Prim {
        Prim { a: self.b, b: self.a, tag: self.tag }
    }

    fn end_point(self) -> Pt {
        self.b
    }
}

fn contiguous(prims: &[Prim]) {
    for w in prims.windows(2) {
        assert_eq!(w[1].a, w[0].b);
    }
}

#[test]
fn butt_stroke_of_one_line_is_a_quadrilateral() {
    let mut ctx: StrokeCtx<Prim> = StrokeCtx::new();
    ctx.open_contour(pt(0, -5), pt(0, 5));
    ctx.do_line(pt(100, -5), pt(100, 5));
    ctx.finish(CapPlan::Butt, CapPlan::Butt);
    let out = ctx.into_output();
    assert_eq!(out.len(), 4);
    assert_eq!(out[0], Prim { a: pt(0, -5), b: pt(100, -5), tag: 0 });
    assert_eq!(out[1], Prim { a: pt(100, -5), b: pt(100, 5), tag: 0 });
    assert_eq!(out[2], Prim { a: pt(100, 5), b: pt(0, 5), tag: 0 });
    assert_eq!(out[3], Prim { a: pt(0, 5), b: pt(0, -5), tag: 0 });
    contiguous(&out);
    assert_eq!(out[3].b, out[0].a);
}

#[test]
fn miter_beyond_limit_equals_bevel() {
    let mut bevel: StrokeCtx<Prim> = StrokeCtx::new();
    bevel.open_contour(pt(0, -5), pt(0, 5));
    bevel.do_line(pt(50, -5), pt(50, 5));
    bevel.do_join(JoinPlan::Bevel { fw: pt(52, -4), bw: pt(48, 6) });
    bevel.do_line(pt(60, 20), pt(40, 22));
    bevel.finish(CapPlan::Butt, CapPlan::Butt);
    let bevel_out = bevel.into_output();

    let mut clamped: StrokeCtx<Prim> = StrokeCtx::new();
    clamped.open_contour(pt(0, -5), pt(0, 5));
    clamped.do_line(pt(50, -5), pt(50, 5));
    clamped.do_join(JoinPlan::Miter {
        within_limit: false,
        side: MiterSide::Forward,
        miter: pt(99, 99),
        fw: pt(52, -4),
        bw: pt(48, 6),
    });
    clamped.do_line(pt(60, 20), pt(40, 22));
    clamped.finish(CapPlan::Butt, CapPlan::Butt);
    let clamped_out = clamped.into_output();

    assert_eq!(bevel_out, clamped_out);
    contiguous(&bevel_out);
}

#[test]
fn miter_within_limit_adds_the_miter_point() {
    let mut ctx: StrokeCtx<Prim> = StrokeCtx::new();
    ctx.open_contour(pt(0, -5), pt(0, 5));
    ctx.do_line(pt(50, -5), pt(50, 5));
    ctx.do_join(JoinPlan::Miter {
        within_limit: true,
        side: MiterSide::Forward,
        miter: pt(55, -6),
        fw: pt(52, -4),
        bw: pt(48, 6),
    });
    ctx.do_line(pt(60, 20), pt(40, 22));
    ctx.finish(CapPlan::Butt, CapPlan::Butt);
    let out = ctx.into_output();
    // forward side: opening line, miter spike, chord, second line
    assert_eq!(out[1], Prim { a: pt(50, -5), b: pt(55, -6), tag: 0 });
    assert_eq!(out[2], Prim { a: pt(55, -6), b: pt(52, -4), tag: 0 });
    contiguous(&out);
    assert_eq!(out[out.len() - 1].b, out[0].a);
}

#[test]
fn round_join_subdivides_an_arc() {
    let mut ctx: StrokeCtx<Prim> = StrokeCtx::new();
    ctx.open_contour(pt(0, -5), pt(0, 5));
    ctx.do_line(pt(50, -5), pt(50, 5));
    ctx.do_join(JoinPlan::RoundForward { k: 4, tol: 1, fw: pt(54, -3), bw: pt(50, 5) });
    ctx.do_line(pt(60, 20), pt(40, 22));
    ctx.finish(CapPlan::Butt, CapPlan::Butt);
    let out = ctx.into_output();
    // the arc chords carry their own tag and stay contiguous
    assert_eq!(out[1].tag, 1);
    assert_eq!(out[2].tag, 1);
    contiguous(&out);
    assert_eq!(out[out.len() - 1].b, out[0].a);
}

#[test]
fn square_caps_insert_both_corners() {
    let mut ctx: StrokeCtx<Prim> = StrokeCtx::new();
    ctx.open_contour(pt(0, -5), pt(0, 5));
    ctx.do_line(pt(100, -5), pt(100, 5));
    ctx.finish(
        CapPlan::Square { q0: pt(105, -5), q1: pt(105, 5) },
        CapPlan::Square { q0: pt(-5, 5), q1: pt(-5, -5) },
    );
    let out = ctx.into_output();
    assert_eq!(out.len(), 8);
    contiguous(&out);
    assert_eq!(out[out.len() - 1].b, out[0].a);
}

#[test]
fn cusp_split_wraps_evolute_parallel_evolute() {
    let mut ctx: StrokeCtx<Prim> = StrokeCtx::new();
    ctx.open_contour(pt(0, 0), pt(0, 100));
    ctx.do_euler_seg(
        &Seg,
        CuspPlan::SplitAfter { t0: 0, t: 1, t1: 2 },
        -1,
        CuspPlan::Whole { t0: 0, t1: 2 },
        1,
        1,
    );
    ctx.finish(CapPlan::Butt, CapPlan::Butt);
    let out = ctx.into_output();
    assert_eq!(out.len(), 9);
    // forward contour: the offset piece up to the cusp ...
    assert_eq!(out[0], Prim { a: pt(0, 0), b: pt(10, 0), tag: 2 });
    // ... then the wrap: evolute, line over to the parallel end,
    // the parallel piece reversed, and the evolute run again
    assert_eq!(out[1], Prim { a: pt(10, 0), b: pt(10, 7), tag: 3 });
    assert_eq!(out[2], Prim { a: pt(10, 7), b: pt(20, 0), tag: 0 });
    assert_eq!(out[3], Prim { a: pt(20, 0), b: pt(10, 0), tag: 2 });
    assert_eq!(out[4], Prim { a: pt(10, 0), b: pt(10, 7), tag: 3 });
    assert_eq!(out[5], Prim { a: pt(10, 7), b: pt(20, 0), tag: 0 });
    // end cap over to the backward side, reversed backward, start cap
    assert_eq!(out[6], Prim { a: pt(20, 0), b: pt(10, 100), tag: 0 });
    assert_eq!(out[7], Prim { a: pt(10, 100), b: pt(0, 100), tag: 2 });
    assert_eq!(out[8], Prim { a: pt(0, 100), b: pt(0, 0), tag: 0 });
    contiguous(&out[..6]);
    assert_eq!(out[8].b, out[0].a);
}

#[test]
fn closed_subpath_gives_two_closed_loops() {
    let mut ctx: StrokeCtx<Prim> = StrokeCtx::new();
    ctx.open_contour(pt(0, -5), pt(0, 5));
    ctx.do_line(pt(100, -5), pt(100, 5));
    ctx.do_line(pt(50, 40), pt(50, 30));
    // closing join back onto the stored start points
    ctx.do_join(JoinPlan::Bevel { fw: ctx.forward_start_point(), bw: ctx.backward_start_point() });
    ctx.finish_closed();
    let out = ctx.into_output();
    assert_eq!(out.len(), 6);
    // forward loop
    contiguous(&out[..3]);
    assert_eq!(out[2].b, out[0].a);
    // reversed backward loop
    contiguous(&out[3..]);
    assert_eq!(out[5].b, out[3].a);
}

#[test]
fn lowered_path_extend_rev_turns_each_primitive() {
    let mut a: LoweredPath<Prim, Pt> = LoweredPath::new();
    a.move_to(pt(0, 0));
    a.line_to(pt(1, 0));
    a.line_to(pt(1, 1));
    let mut b: LoweredPath<Prim, Pt> = Default::default();
    b.move_to(pt(1, 1));
    b.extend_rev(&a);
    assert_eq!(b.len(), 2);
    assert_eq!(b.get(0), Prim { a: pt(1, 1), b: pt(1, 0), tag: 0 });
    assert_eq!(b.get(1), Prim { a: pt(1, 0), b: pt(0, 0), tag: 0 });
    assert_eq!(b.last_point(), pt(0, 0));
}

#[test]
fn degenerate_cubic_routes_to_the_same_rectangle() {
    // A straight cubic goes through the linear-degenerate special case:
    // its interior joins collapse and are elided, so the machine sees the
    // same calls as a plain line and must produce the same rectangle.
    let mut straight: StrokeCtx<Prim> = StrokeCtx::new();
    straight.open_contour(pt(0, -5), pt(0, 5));
    straight.do_line(pt(100, -5), pt(100, 5));
    straight.finish(CapPlan::Butt, CapPlan::Butt);
    let expected = straight.into_output();

    let mut degenerate: StrokeCtx<Prim> = StrokeCtx::new();
    degenerate.open_contour(pt(0, -5), pt(0, 5));
    degenerate.do_join(JoinPlan::Skip);
    degenerate.do_line(pt(100, -5), pt(100, 5));
    degenerate.do_join(JoinPlan::Skip);
    degenerate.finish(CapPlan::Butt, CapPlan::Butt);
    let out = degenerate.into_output();

    assert_eq!(out, expected);
    assert_eq!(out.len(), 4);
}

#[test]
fn empty_subpath_emits_nothing_and_machine_can_reopen() {
    let mut ctx: StrokeCtx<Prim> = StrokeCtx::new();
    ctx.open_contour(pt(0, -5), pt(0, 5));
    ctx.finish(CapPlan::Butt, CapPlan::Butt);
    ctx.open_contour(pt(7, -5), pt(7, 5));
    ctx.do_line(pt(9, -5), pt(9, 5));
    ctx.finish(CapPlan::Butt, CapPlan::Butt);
    let out = ctx.into_output();
    assert_eq!(out.len(), 4);
    assert_eq!(out[0].a, pt(7, -5));
}

#[test]
fn cusp_at_segment_start_wraps_from_the_evolute_entry() {
    let mut ctx: StrokeCtx<Prim> = StrokeCtx::new();
    ctx.open_contour(pt(0, 0), pt(0, 100));
    ctx.do_euler_seg(
        &Seg,
        CuspPlan::SplitBefore { t0: 0, t: 1, t1: 2, evolute_start: pt(3, 4) },
        -1,
        CuspPlan::Whole { t0: 0, t1: 2 },
        1,
        1,
    );
    ctx.finish(CapPlan::Butt, CapPlan::Butt);
    let out = ctx.into_output();
    assert_eq!(out.len(), 11);
    // entry into the evolute, evolute piece, line over to the parallel end
    assert_eq!(out[0], Prim { a: pt(0, 0), b: pt(3, 4), tag: 0 });
    assert_eq!(out[1], Prim { a: pt(3, 4), b: pt(3, 11), tag: 3 });
    assert_eq!(out[2], Prim { a: pt(3, 11), b: pt(10, 0), tag: 0 });
    // the parallel piece reversed, then the evolute run again
    assert_eq!(out[3], Prim { a: pt(10, 0), b: pt(0, 0), tag: 2 });
    assert_eq!(out[4], Prim { a: pt(0, 0), b: pt(3, 4), tag: 0 });
    assert_eq!(out[5], Prim { a: pt(3, 4), b: pt(3, 11), tag: 3 });
    assert_eq!(out[6], Prim { a: pt(3, 11), b: pt(10, 0), tag: 0 });
    // the offset continues past the cusp, then caps close the loop
    assert_eq!(out[7], Prim { a: pt(10, 0), b: pt(20, 0), tag: 2 });
    assert_eq!(out[8], Prim { a: pt(20, 0), b: pt(10, 100), tag: 0 });
    assert_eq!(out[9], Prim { a: pt(10, 100), b: pt(0, 100), tag: 2 });
    assert_eq!(out[10], Prim { a: pt(0, 100), b: pt(0, 0), tag: 0 });
    contiguous(&out);
    assert_eq!(out[10].b, out[0].a);
}
