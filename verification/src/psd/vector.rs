//! Vector masks, the path half of a shape layer.
//!
//! The format is a list of 26-byte records. Each starts with a selector
//! saying what it is: how many knots of a subpath follow and whether it is
//! closed, or a knot with three points, the incoming control handle, the
//! anchor and the outgoing one. Coordinates are 8.24 signed fixed point,
//! a fraction of the document, stored vertically first.

use crate::bytes::{be16, be32, read_be16, read_be32, signed32};
use vstd::prelude::*;

verus! {

/// The selector of a closed subpath's length.
pub const CLOSED_LENGTH: u16 = 0;

/// The selector of a knot of a closed subpath whose handles move together.
pub const CLOSED_LINKED: u16 = 1;

/// The selector of any other knot of a closed subpath.
pub const CLOSED_UNLINKED: u16 = 2;

/// The selector of an open subpath's length.
pub const OPEN_LENGTH: u16 = 3;

/// The selector of a knot of an open subpath whose handles move together.
pub const OPEN_LINKED: u16 = 4;

/// The selector of any other knot of an open subpath.
pub const OPEN_UNLINKED: u16 = 5;

/// A point, as a fraction of the document in 8.24 fixed point.
#[derive(Debug, Clone, Copy, PartialEq, Eq, Structural)]
pub struct FixedPoint {
    pub x: i32,
    pub y: i32,
}

/// A point on a path with its two control points.
#[derive(Debug, Clone, Copy, PartialEq, Eq, Structural)]
pub struct Knot {
    pub incoming: FixedPoint,
    pub point: FixedPoint,
    pub outgoing: FixedPoint,
}

/// One stroke of a path.
#[derive(Debug, PartialEq, Eq)]
pub struct FixedSubPath {
    pub anchors: Vec<Knot>,
    pub closed: bool,
}

/// A [`FixedSubPath`] as a mathematical value.
#[verifier::ext_equal]
pub struct SubPathModel {
    pub anchors: Seq<Knot>,
    pub closed: bool,
}

impl View for FixedSubPath {
    type V = SubPathModel;

    open spec fn view(&self) -> SubPathModel {
        SubPathModel { anchors: self.anchors@, closed: self.closed }
    }
}

/// A path as a mathematical value.
pub open spec fn path_model(path: Seq<FixedSubPath>) -> Seq<SubPathModel> {
    Seq::new(path.len(), |i: int| path[i]@)
}

// --------------------------------------------------------------- reading

/// What the records so far have made: the subpaths that are complete, the
/// one that is open, and how many of its knots are still to come.
pub struct PathRun {
    pub done: Seq<SubPathModel>,
    pub current: Option<SubPathModel>,
    pub remaining: int,
}

impl PathRun {
    /// Nothing yet.
    pub open spec fn start() -> PathRun {
        PathRun { done: Seq::empty(), current: None, remaining: 0 }
    }

    /// The subpaths, with the open one where it has any knot.
    pub open spec fn all(self) -> Seq<SubPathModel> {
        match self.current {
            Some(sub) => if sub.anchors.len() > 0 {
                self.done.push(sub)
            } else {
                self.done
            },
            None => self.done,
        }
    }

    /// The run after one more record.
    pub open spec fn step(self, record: Seq<u8>) -> PathRun {
        let selector = be16(record, 0);
        if selector == CLOSED_LENGTH || selector == OPEN_LENGTH {
            PathRun {
                done: self.all(),
                current: Some(
                    SubPathModel { anchors: Seq::empty(), closed: selector == CLOSED_LENGTH },
                ),
                remaining: be16(record, 2),
            }
        } else if selector == CLOSED_LINKED || selector == CLOSED_UNLINKED || selector
            == OPEN_LINKED || selector == OPEN_UNLINKED {
            match self.current {
                Some(sub) => if self.remaining > 0 {
                    PathRun {
                        current: Some(
                            SubPathModel { anchors: sub.anchors.push(knot_of(record)), ..sub },
                        ),
                        remaining: self.remaining - 1,
                        ..self
                    }
                } else {
                    self
                },
                None => self,
            }
        } else {
            self
        }
    }

    /// The run after some records.
    pub open spec fn after(self, records: Seq<Seq<u8>>) -> PathRun
        decreases records.len(),
    {
        if records.len() == 0 {
            self
        } else {
            self.after(records.drop_last()).step(records.last())
        }
    }
}

/// The point at `at`, stored vertically first.
pub open spec fn point_at(record: Seq<u8>, at: int) -> FixedPoint {
    FixedPoint {
        x: signed32(be32(record, at + 4)) as i32,
        y: signed32(be32(record, at)) as i32,
    }
}

/// The knot that a record holds.
pub open spec fn knot_of(record: Seq<u8>) -> Knot {
    Knot {
        incoming: point_at(record, 2),
        point: point_at(record, 10),
        outgoing: point_at(record, 18),
    }
}

/// The whole records of a block's body.
pub open spec fn records_of(body: Seq<u8>) -> Seq<Seq<u8>> {
    Seq::new((body.len() / 26) as nat, |k: int| body.subrange(26 * k, 26 * k + 26))
}

/// The subpaths of a vector mask; nothing where there are none.
pub open spec fn mask_path(raw: Seq<u8>) -> Option<Seq<SubPathModel>> {
    if raw.len() < 8 {
        None
    } else {
        let all = PathRun::start().after(records_of(raw.skip(8))).all();
        if all.len() == 0 {
            None
        } else {
            Some(all)
        }
    }
}

fn signed_of(v: u32) -> (r: i32)
    ensures
        r == signed32(v as int),
{
    if v < 0x8000_0000 {
        v as i32
    } else {
        (v as i64 - 0x1_0000_0000) as i32
    }
}

fn read_point(raw: &[u8], at: usize) -> (p: FixedPoint)
    requires
        at + 8 <= raw@.len(),
    ensures
        p == point_at(raw@, at as int),
{
    assert(raw@.len() == raw.len());
    FixedPoint { x: signed_of(read_be32(raw, at + 4)), y: signed_of(read_be32(raw, at)) }
}

proof fn lemma_record_parts(raw: Seq<u8>, at: int)
    requires
        0 <= at,
        at + 26 <= raw.len(),
    ensures
        ({
            let record = raw.subrange(at, at + 26);
            &&& be16(record, 0) == be16(raw, at)
            &&& be16(record, 2) == be16(raw, at + 2)
            &&& knot_of(record) == (Knot {
                incoming: point_at(raw, at + 2),
                point: point_at(raw, at + 10),
                outgoing: point_at(raw, at + 18),
            })
        }),
{
}

/// Decodes a vector mask into a path in fractions of the document.
pub fn read_vector_mask(raw: &[u8]) -> (r: Option<Vec<FixedSubPath>>)
    ensures
        match r {
            Some(path) => mask_path(raw@) == Some(path_model(path@)),
            None => mask_path(raw@) is None,
        },
{
    assert(raw@.len() == raw.len());
    if raw.len() < 8 {
        return None;
    }
    let ghost body = raw@.skip(8);
    let ghost records = records_of(body);
    let n: usize = (raw.len() - 8) / 26;
    let mut done: Vec<FixedSubPath> = Vec::new();
    let mut current: Option<FixedSubPath> = None;
    let mut remaining: usize = 0;
    let mut k: usize = 0;
    assert(records.take(0) =~= Seq::<Seq<u8>>::empty());
    assert(path_model(done@) =~= Seq::<SubPathModel>::empty());
    while k < n
        invariant
            raw@.len() == raw.len(),
            raw@.len() >= 8,
            body == raw@.skip(8),
            records == records_of(body),
            n == (raw@.len() - 8) / 26,
            k <= n,
            PathRun::start().after(records.take(k as int)) == (PathRun {
                done: path_model(done@),
                current: match current {
                    Some(sub) => Some(sub@),
                    None => None,
                },
                remaining: remaining as int,
            }),
        decreases n - k,
    {
        let at: usize = 8 + 26 * k;
        let ghost run = PathRun::start().after(records.take(k as int));
        proof {
            assert(records.take(k + 1).drop_last() =~= records.take(k as int));
            assert(records.take(k + 1).last() == records[k as int]);
            assert(records[k as int] =~= raw@.subrange(at as int, at + 26));
            lemma_record_parts(raw@, at as int);
        }
        let selector: u16 = read_be16(raw, at);
        if selector == CLOSED_LENGTH || selector == OPEN_LENGTH {
            match current {
                Some(sub) => {
                    if sub.anchors.len() > 0 {
                        let ghost before = path_model(done@);
                        done.push(sub);
                        assert(path_model(done@) =~= before.push(sub@));
                    }
                },
                None => {},
            }
            assert(path_model(done@) == run.all());
            remaining = read_be16(raw, at + 2) as usize;
            let fresh = FixedSubPath { anchors: Vec::new(), closed: selector == CLOSED_LENGTH };
            assert(fresh@.anchors =~= Seq::<Knot>::empty());
            current = Some(fresh);
        } else if selector == CLOSED_LINKED || selector == CLOSED_UNLINKED || selector
            == OPEN_LINKED || selector == OPEN_UNLINKED {
            if remaining > 0 {
                match current {
                    Some(sub) => {
                        let knot = Knot {
                            incoming: read_point(raw, at + 2),
                            point: read_point(raw, at + 10),
                            outgoing: read_point(raw, at + 18),
                        };
                        let mut sub = sub;
                        sub.anchors.push(knot);
                        remaining = remaining - 1;
                        current = Some(sub);
                    },
                    None => {
                        current = None;
                    },
                }
            }
        }
        k = k + 1;
    }
    assert(records.take(n as int) =~= records);
    if let Some(sub) = current {
        if sub.anchors.len() > 0 {
            let ghost before = path_model(done@);
            done.push(sub);
            assert(path_model(done@) =~= before.push(sub@));
        }
    }
    assert(path_model(done@) == PathRun::start().after(records).all());
    if done.len() == 0 {
        None
    } else {
        Some(done)
    }
}

// --------------------------------------------------------------- writing

/// A number in two's complement, as a 32-bit number without sign.
pub open spec fn unsigned32(v: int) -> int {
    if v < 0 {
        v + 0x1_0000_0000
    } else {
        v
    }
}

/// A 16-bit number as two bytes.
pub open spec fn bytes16(v: int) -> Seq<u8> {
    seq![(v / 256) as u8, (v % 256) as u8]
}

/// A 32-bit number as four bytes.
pub open spec fn bytes32(v: int) -> Seq<u8> {
    seq![
        (v / 0x100_0000) as u8,
        (v / 0x1_0000 % 256) as u8,
        (v / 256 % 256) as u8,
        (v % 256) as u8,
    ]
}

/// A point as eight bytes, vertically first.
pub open spec fn point_bytes(p: FixedPoint) -> Seq<u8> {
    bytes32(unsigned32(p.y as int)) + bytes32(unsigned32(p.x as int))
}

/// The record that says how many knots of a subpath follow.
#[verifier::opaque]
pub open spec fn length_record(sub: SubPathModel) -> Seq<u8> {
    bytes16(
        if sub.closed {
            CLOSED_LENGTH as int
        } else {
            OPEN_LENGTH as int
        },
    ) + bytes16(sub.anchors.len() as int % 0x1_0000) + Seq::new(22, |i: int| 0u8)
}

/// The record of a knot.
#[verifier::opaque]
pub open spec fn knot_record(knot: Knot, closed: bool) -> Seq<u8> {
    bytes16(
        if closed {
            CLOSED_UNLINKED as int
        } else {
            OPEN_UNLINKED as int
        },
    ) + point_bytes(knot.incoming) + point_bytes(knot.point) + point_bytes(knot.outgoing)
}

/// The records of a subpath; none for one without knots.
pub open spec fn sub_records(sub: SubPathModel) -> Seq<Seq<u8>> {
    if sub.anchors.len() == 0 {
        Seq::empty()
    } else {
        seq![length_record(sub)] + Seq::new(
            sub.anchors.len(),
            |i: int| knot_record(sub.anchors[i], sub.closed),
        )
    }
}

/// The records of a path.
pub open spec fn path_records(path: Seq<SubPathModel>) -> Seq<Seq<u8>>
    decreases path.len(),
{
    if path.len() == 0 {
        Seq::empty()
    } else {
        path_records(path.drop_last()) + sub_records(path.last())
    }
}

/// Records one after another.
pub open spec fn joined_records(records: Seq<Seq<u8>>) -> Seq<u8>
    decreases records.len(),
{
    if records.len() == 0 {
        Seq::empty()
    } else {
        joined_records(records.drop_last()) + records.last()
    }
}

/// The version and the flags in front of the records.
pub open spec fn mask_header() -> Seq<u8> {
    seq![0u8, 0, 0, 3, 0, 0, 0, 0]
}

/// A path as a vector mask payload.
pub open spec fn written_mask(path: Seq<SubPathModel>) -> Seq<u8> {
    mask_header() + joined_records(path_records(path))
}

/// A path without its subpaths that have no knots.
pub open spec fn inked(path: Seq<SubPathModel>) -> Seq<SubPathModel>
    decreases path.len(),
{
    if path.len() == 0 {
        Seq::empty()
    } else if path.last().anchors.len() == 0 {
        inked(path.drop_last())
    } else {
        inked(path.drop_last()).push(path.last())
    }
}

fn push16(out: &mut Vec<u8>, v: u16)
    ensures
        final(out)@ == old(out)@ + bytes16(v as int),
{
    out.push((v / 256) as u8);
    out.push((v % 256) as u8);
    assert(out@ =~= old(out)@ + bytes16(v as int));
}

fn push_fixed(out: &mut Vec<u8>, v: i32)
    ensures
        final(out)@ == old(out)@ + bytes32(unsigned32(v as int)),
{
    let u: u32 = if v >= 0 {
        v as u32
    } else {
        (v as i64 + 0x1_0000_0000) as u32
    };
    out.push((u / 0x100_0000) as u8);
    out.push((u / 0x1_0000 % 256) as u8);
    out.push((u / 256 % 256) as u8);
    out.push((u % 256) as u8);
    assert(out@ =~= old(out)@ + bytes32(unsigned32(v as int)));
}

fn push_point(out: &mut Vec<u8>, p: FixedPoint)
    ensures
        final(out)@ == old(out)@ + point_bytes(p),
{
    push_fixed(out, p.y);
    push_fixed(out, p.x);
    assert(out@ =~= old(out)@ + point_bytes(p));
}

fn push_knot(out: &mut Vec<u8>, knot: Knot, closed: bool)
    ensures
        final(out)@ == old(out)@ + knot_record(knot, closed),
{
    push16(
        out,
        if closed {
            CLOSED_UNLINKED
        } else {
            OPEN_UNLINKED
        },
    );
    push_point(out, knot.incoming);
    push_point(out, knot.point);
    push_point(out, knot.outgoing);
    reveal(knot_record);
    assert(out@ =~= old(out)@ + knot_record(knot, closed));
}

fn push_length(out: &mut Vec<u8>, sub: &FixedSubPath)
    ensures
        final(out)@ == old(out)@ + length_record(sub@),
{
    push16(
        out,
        if sub.closed {
            CLOSED_LENGTH
        } else {
            OPEN_LENGTH
        },
    );
    push16(out, (sub.anchors.len() % 0x1_0000) as u16);
    let ghost before = out@;
    let mut k: usize = 0;
    while k < 22
        invariant
            k <= 22,
            out@ == before + Seq::new(k as nat, |i: int| 0u8),
        decreases 22 - k,
    {
        out.push(0);
        k = k + 1;
        assert(out@ =~= before + Seq::new(k as nat, |i: int| 0u8));
    }
    reveal(length_record);
    assert(out@ =~= old(out)@ + length_record(sub@));
}

proof fn lemma_joined(a: Seq<Seq<u8>>, b: Seq<Seq<u8>>)
    ensures
        joined_records(a + b) == joined_records(a) + joined_records(b),
    decreases b.len(),
{
    if b.len() == 0 {
        assert(a + b =~= a);
        assert(joined_records(a) + Seq::<u8>::empty() =~= joined_records(a));
    } else {
        assert((a + b).drop_last() =~= a + b.drop_last());
        lemma_joined(a, b.drop_last());
        assert(joined_records(a) + (joined_records(b.drop_last()) + b.last()) =~= (joined_records(a)
            + joined_records(b.drop_last())) + b.last());
    }
}

fn push_sub(out: &mut Vec<u8>, sub: &FixedSubPath)
    ensures
        final(out)@ == old(out)@ + joined_records(sub_records(sub@)),
{
    if sub.anchors.len() == 0 {
        assert(out@ =~= old(out)@ + joined_records(sub_records(sub@)));
        return;
    }
    let ghost start = out@;
    let ghost records = sub_records(sub@);
    push_length(out, sub);
    let mut k: usize = 0;
    assert(records.take(1) =~= seq![length_record(sub@)]);
    assert(records.take(1).drop_last() =~= Seq::<Seq<u8>>::empty());
    proof {
        reveal_with_fuel(joined_records, 2);
        assert(joined_records(records.take(1)) =~= length_record(sub@));
    }
    while k < sub.anchors.len()
        invariant
            k <= sub.anchors@.len(),
            records == sub_records(sub@),
            records.len() == sub.anchors@.len() + 1,
            out@ == start + joined_records(records.take(k + 1)),
        decreases sub.anchors@.len() - k,
    {
        let ghost before = out@;
        push_knot(out, sub.anchors[k], sub.closed);
        proof {
            assert(records.take(k + 2).drop_last() =~= records.take(k + 1));
            assert(records.take(k + 2).last() == knot_record(sub.anchors@[k as int], sub.closed));
            assert(out@ =~= start + joined_records(records.take(k + 2)));
        }
        k = k + 1;
    }
    assert(records.take(k + 1) =~= records);
}

/// Encodes a path as a vector mask payload.
pub fn write_vector_mask(path: &[FixedSubPath]) -> (out: Vec<u8>)
    ensures
        out@ == written_mask(path_model(path@)),
{
    assert(path@.len() == path.len());
    let ghost model = path_model(path@);
    let mut out: Vec<u8> = vec![0u8, 0, 0, 3, 0, 0, 0, 0];
    assert(out@ =~= mask_header());
    let mut i: usize = 0;
    assert(model.take(0) =~= Seq::<SubPathModel>::empty());
    assert(out@ =~= mask_header() + joined_records(path_records(model.take(0))));
    while i < path.len()
        invariant
            path@.len() == path.len(),
            model == path_model(path@),
            i <= path@.len(),
            out@ == mask_header() + joined_records(path_records(model.take(i as int))),
        decreases path@.len() - i,
    {
        push_sub(&mut out, &path[i]);
        proof {
            assert(model.take(i + 1).drop_last() =~= model.take(i as int));
            assert(model.take(i + 1).last() == path@[i as int]@);
            lemma_joined(path_records(model.take(i as int)), sub_records(path@[i as int]@));
            assert(out@ =~= mask_header() + joined_records(path_records(model.take(i + 1))));
        }
        i = i + 1;
    }
    assert(model.take(i as int) =~= model);
    out
}

// ------------------------------------------------------------- the law

proof fn lemma_after_joined(run: PathRun, a: Seq<Seq<u8>>, b: Seq<Seq<u8>>)
    ensures
        run.after(a + b) == run.after(a).after(b),
    decreases b.len(),
{
    if b.len() == 0 {
        assert(a + b =~= a);
    } else {
        assert((a + b).drop_last() =~= a + b.drop_last());
        lemma_after_joined(run, a, b.drop_last());
    }
}

proof fn lemma_fixed(v: i32)
    ensures
        signed32(be32(bytes32(unsigned32(v as int)), 0)) == v,
{
    let u = unsigned32(v as int);
    let b = bytes32(u);
    assert(b[0] == u / 0x100_0000);
    assert(b[1] == u / 0x1_0000 % 256);
    assert(b[2] == u / 256 % 256);
    assert(b[3] == u % 256);
    assert(be32(b, 0) == u);
}

proof fn lemma_point(p: FixedPoint, record: Seq<u8>, at: int)
    requires
        0 <= at,
        at + 8 <= record.len(),
        record.subrange(at, at + 8) == point_bytes(p),
    ensures
        point_at(record, at) == p,
{
    lemma_fixed(p.y);
    lemma_fixed(p.x);
    let part = record.subrange(at, at + 8);
    assert(point_bytes(p).subrange(0, 4) =~= bytes32(unsigned32(p.y as int)));
    assert(point_bytes(p).subrange(4, 8) =~= bytes32(unsigned32(p.x as int)));
    assert forall|i: int| 0 <= i < 4 implies #[trigger] bytes32(unsigned32(p.y as int))[i]
        == record[at + i] by {
        assert(part.subrange(0, 4)[i] == record[at + i]);
    }
    assert forall|i: int| 0 <= i < 4 implies #[trigger] bytes32(unsigned32(p.x as int))[i]
        == record[at + 4 + i] by {
        assert(part.subrange(4, 8)[i] == record[at + 4 + i]);
    }
    assert(be32(record, at) == be32(bytes32(unsigned32(p.y as int)), 0));
    assert(be32(record, at + 4) == be32(bytes32(unsigned32(p.x as int)), 0));
}

proof fn lemma_knot_record(knot: Knot, closed: bool)
    ensures
        ({
            let record = knot_record(knot, closed);
            &&& record.len() == 26
            &&& be16(record, 0) == if closed {
                CLOSED_UNLINKED as int
            } else {
                OPEN_UNLINKED as int
            }
            &&& knot_of(record) == knot
        }),
{
    reveal(knot_record);
    let record = knot_record(knot, closed);
    assert(record.subrange(2, 10) =~= point_bytes(knot.incoming));
    assert(record.subrange(10, 18) =~= point_bytes(knot.point));
    assert(record.subrange(18, 26) =~= point_bytes(knot.outgoing));
    lemma_point(knot.incoming, record, 2);
    lemma_point(knot.point, record, 10);
    lemma_point(knot.outgoing, record, 18);
}

proof fn lemma_length_record(sub: SubPathModel)
    ensures
        ({
            let record = length_record(sub);
            &&& record.len() == 26
            &&& be16(record, 0) == if sub.closed {
                CLOSED_LENGTH as int
            } else {
                OPEN_LENGTH as int
            }
            &&& be16(record, 2) == sub.anchors.len() as int % 0x1_0000
        }),
{
    reveal(length_record);
}

proof fn lemma_step_length(run: PathRun, sub: SubPathModel)
    requires
        sub.anchors.len() < 0x1_0000,
    ensures
        run.step(length_record(sub)) == (PathRun {
            done: run.all(),
            current: Some(SubPathModel { anchors: Seq::empty(), closed: sub.closed }),
            remaining: sub.anchors.len() as int,
        }),
{
    lemma_length_record(sub);
}

proof fn lemma_step_knot(run: PathRun, knot: Knot, closed: bool)
    requires
        run.current is Some,
        run.remaining > 0,
    ensures
        run.step(knot_record(knot, closed)) == (PathRun {
            current: Some(
                SubPathModel {
                    anchors: run.current->0.anchors.push(knot),
                    ..run.current->0
                },
            ),
            remaining: run.remaining - 1,
            ..run
        }),
{
    lemma_knot_record(knot, closed);
}

proof fn lemma_knots(run: PathRun, sub: SubPathModel, j: int)
    requires
        0 < sub.anchors.len() < 0x1_0000,
        0 <= j <= sub.anchors.len(),
    ensures
        run.after(sub_records(sub).take(j + 1)) == (PathRun {
            done: run.all(),
            current: Some(
                SubPathModel { anchors: sub.anchors.take(j), closed: sub.closed },
            ),
            remaining: sub.anchors.len() - j,
        }),
    decreases j,
{
    let records = sub_records(sub);
    let last = records.take(j + 1).last();
    if j == 0 {
        assert(records.take(1).drop_last() =~= Seq::<Seq<u8>>::empty());
        assert(last == length_record(sub));
        assert(run.after(records.take(1)) == run.after(Seq::empty()).step(last));
        assert(run.after(Seq::empty()) == run);
        lemma_step_length(run, sub);
        assert(sub.anchors.take(0) =~= Seq::<Knot>::empty());
    } else {
        let knot = sub.anchors[j - 1];
        lemma_knots(run, sub, j - 1);
        assert(records.take(j + 1).drop_last() =~= records.take(j));
        assert(last == knot_record(knot, sub.closed));
        lemma_step_knot(run.after(records.take(j)), knot, sub.closed);
        assert(sub.anchors.take(j - 1).push(knot) =~= sub.anchors.take(j));
    }
}

proof fn lemma_path(path: Seq<SubPathModel>)
    requires
        forall|i: int| 0 <= i < path.len() ==> (#[trigger] path[i]).anchors.len() < 0x1_0000,
    ensures
        PathRun::start().after(path_records(path)).all() == inked(path),
    decreases path.len(),
{
    let start = PathRun::start();
    if path.len() > 0 {
        let before = path.drop_last();
        let sub = path.last();
        assert forall|i: int| 0 <= i < before.len() implies (#[trigger] before[i]).anchors.len()
            < 0x1_0000 by {
            assert(before[i] == path[i]);
        }
        assert(path[path.len() - 1].anchors.len() < 0x1_0000);
        lemma_path(before);
        let run = start.after(path_records(before));
        lemma_after_joined(start, path_records(before), sub_records(sub));
        if sub.anchors.len() > 0 {
            lemma_knots(run, sub, sub.anchors.len() as int);
            assert(sub_records(sub).take(sub.anchors.len() as int + 1) =~= sub_records(sub));
            assert(sub.anchors.take(sub.anchors.len() as int) =~= sub.anchors);
            assert(SubPathModel { anchors: sub.anchors, closed: sub.closed } == sub);
        } else {
            assert(run.after(sub_records(sub)) == run);
        }
    }
}

proof fn lemma_records_of_joined(records: Seq<Seq<u8>>)
    requires
        forall|i: int| 0 <= i < records.len() ==> (#[trigger] records[i]).len() == 26,
    ensures
        joined_records(records).len() == 26 * records.len(),
        records_of(joined_records(records)) == records,
    decreases records.len(),
{
    if records.len() == 0 {
        assert(records_of(joined_records(records)) =~= records);
    } else {
        let before = records.drop_last();
        assert forall|i: int| 0 <= i < before.len() implies (#[trigger] before[i]).len() == 26 by {
            assert(before[i] == records[i]);
        }
        lemma_records_of_joined(before);
        let head = joined_records(before);
        let all = joined_records(records);
        assert(records[records.len() - 1].len() == 26);
        assert forall|k: int| 0 <= k < records.len() implies #[trigger] records_of(all)[k]
            == records[k] by {
            if k < before.len() {
                assert(records_of(head)[k] == before[k]);
                assert(all.subrange(26 * k, 26 * k + 26) =~= head.subrange(26 * k, 26 * k + 26));
            } else {
                assert(all.subrange(26 * k, 26 * k + 26) =~= records.last());
            }
        }
        assert(records_of(all) =~= records);
    }
}

proof fn lemma_record_sizes(path: Seq<SubPathModel>)
    ensures
        forall|i: int|
            0 <= i < path_records(path).len() ==> (#[trigger] path_records(path)[i]).len() == 26,
    decreases path.len(),
{
    if path.len() > 0 {
        lemma_record_sizes(path.drop_last());
        let sub = path.last();
        let own = sub_records(sub);
        assert forall|i: int| 0 <= i < own.len() implies (#[trigger] own[i]).len() == 26 by {
            if i == 0 {
                lemma_length_record(sub);
            } else {
                lemma_knot_record(sub.anchors[i - 1], sub.closed);
            }
        }
        let all = path_records(path);
        let head = path_records(path.drop_last());
        assert forall|i: int| 0 <= i < all.len() implies (#[trigger] all[i]).len() == 26 by {
            if i < head.len() {
                assert(all[i] == head[i]);
            } else {
                assert(all[i] == own[i - head.len()]);
            }
        }
    }
}

/// A path that is written and read back is the path again, without the
/// subpaths that have no knots; a path with none at all reads as nothing.
/// A subpath's knots are counted in sixteen bits.
pub proof fn law_read_undoes_write(path: Seq<SubPathModel>)
    requires
        forall|i: int| 0 <= i < path.len() ==> (#[trigger] path[i]).anchors.len() < 0x1_0000,
    ensures
        mask_path(written_mask(path)) == if inked(path).len() == 0 {
            None
        } else {
            Some(inked(path))
        },
{
    let records = path_records(path);
    lemma_record_sizes(path);
    lemma_records_of_joined(records);
    lemma_path(path);
    assert(written_mask(path).skip(8) =~= joined_records(records));
}

/// A mask is its eight-byte header and twenty-six bytes for every record.
pub proof fn law_records_are_whole(path: Seq<SubPathModel>)
    ensures
        written_mask(path).len() == 8 + 26 * path_records(path).len(),
{
    lemma_record_sizes(path);
    lemma_records_of_joined(path_records(path));
}

} // verus!
