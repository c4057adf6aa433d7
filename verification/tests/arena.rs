//! The arena on an axis-aligned geometry with whole-number coordinates.

use hyperspeedcube::arena::ShapeArena;
use hyperspeedcube::manifold::{
    GeometryError, ManifoldId, ManifoldSpace, ManifoldSplit, ManifoldWhichSide, PointId,
    PointWhichSide,
};
use hyperspeedcube::orient::SignedManifold;
use hyperspeedcube::record::Recorded;
use hyperspeedcube::shape::{Shape, ShapeSet};
use hyperspeedcube::sign::{ShapeId, ShapeRef, Sign};
use hyperspeedcube::slice::SliceOperation;
use hyperspeedcube::split::{CutError, CutOp, CutParams, ShapeSplit};

/// A point of the closed space: a place with whole-number coordinates, or
/// the one point at infinity that every flat passes through.
#[derive(Debug, Clone, PartialEq, Eq)]
enum Place {
    Infinity,
    At(Vec<i64>),
}

/// An oriented manifold: a flat on which some coordinates are fixed, or an
/// ordered pair of points.
#[derive(Debug, Clone, PartialEq, Eq)]
enum Flat {
    Fixed { fixed: Vec<Option<i64>>, sign: i64 },
    Pair { from: Place, to: Place },
}

/// Axis-aligned geometry. A flat is the wedge of the planes that fix its
/// coordinates, taken in the order of the axes, times its sign; the inside
/// of the plane `axis = c` with sign `s` is where `s * (x - c) < 0`.
struct Grid {
    ndim: usize,
    manifolds: Vec<Flat>,
    points: Vec<Place>,
}

fn failure(message: &str) -> GeometryError {
    GeometryError { message: message.to_string() }
}

fn sign_of(value: i64) -> Sign {
    if value > 0 {
        Sign::Pos
    } else {
        Sign::Neg
    }
}

impl Grid {
    fn new(ndim: usize) -> Grid {
        Grid { ndim, manifolds: Vec::new(), points: Vec::new() }
    }

    fn store(&mut self, flat: Flat) -> ManifoldId {
        self.manifolds.push(flat);
        ManifoldId((self.manifolds.len() - 1) as u32)
    }

    fn whole(&mut self) -> ManifoldId {
        let fixed = vec![None; self.ndim];
        self.store(Flat::Fixed { fixed, sign: 1 })
    }

    /// The plane `axis = c`, whose inside is where `sign * (x - c) < 0`.
    fn plane(&mut self, axis: usize, c: i64, sign: i64) -> ManifoldId {
        let mut fixed = vec![None; self.ndim];
        fixed[axis] = Some(c);
        self.store(Flat::Fixed { fixed, sign })
    }

    fn pair(&mut self, from: Place, to: Place) -> ManifoldId {
        self.store(Flat::Pair { from, to })
    }

    fn point(&mut self, place: Place) -> PointId {
        match self.points.iter().position(|p| *p == place) {
            Some(i) => PointId(i as u32),
            None => {
                self.points.push(place);
                PointId((self.points.len() - 1) as u32)
            }
        }
    }

    fn at(&mut self, coordinates: &[i64]) -> PointId {
        self.point(Place::At(coordinates.to_vec()))
    }

    fn get(&self, m: ManifoldId) -> &Flat {
        &self.manifolds[m.0 as usize]
    }

    fn fixed_of(&self, m: ManifoldId) -> Result<(&Vec<Option<i64>>, i64), GeometryError> {
        match self.get(m) {
            Flat::Fixed { fixed, sign } => Ok((fixed, *sign)),
            Flat::Pair { .. } => Err(failure("a point pair is no flat")),
        }
    }

    /// Parity of moving `axis` behind the fixed axes that come after it.
    fn parity(fixed: &[Option<i64>], axis: usize) -> i64 {
        let later = fixed.iter().enumerate().filter(|(i, c)| c.is_some() && *i > axis).count();
        if later % 2 == 0 {
            1
        } else {
            -1
        }
    }

    /// The axis that `m` fixes and `ambient` leaves free, the value at which
    /// it is fixed, and the sign of that plane within `ambient`.
    fn cut_axis(&self, m: ManifoldId, ambient: ManifoldId) -> Result<(usize, i64, i64), GeometryError> {
        let (fixed, sign) = self.fixed_of(m)?;
        let (around, around_sign) = self.fixed_of(ambient)?;
        let axes: Vec<usize> =
            (0..self.ndim).filter(|i| fixed[*i].is_some() && around[*i].is_none()).collect();
        if axes.len() != 1 {
            return Err(failure("not a cut of the ambient manifold"));
        }
        let axis = axes[0];
        Ok((axis, fixed[axis].unwrap(), sign * around_sign * Grid::parity(around, axis)))
    }

    /// The free axis of a line and the direction in which it runs.
    fn direction(&self, line: ManifoldId) -> Result<(usize, i64), GeometryError> {
        let (fixed, sign) = self.fixed_of(line)?;
        let free: Vec<usize> = (0..self.ndim).filter(|i| fixed[*i].is_none()).collect();
        if free.len() != 1 {
            return Err(failure("not a line"));
        }
        Ok((free[0], sign * Grid::parity(fixed, free[0])))
    }
}

const FAR: i64 = 1_000_000_000;

impl ManifoldSpace for Grid {
    fn ndim(&self, manifold: ManifoldId) -> Result<u8, GeometryError> {
        match self.get(manifold) {
            Flat::Fixed { fixed, .. } => Ok(fixed.iter().filter(|c| c.is_none()).count() as u8),
            Flat::Pair { .. } => Ok(0),
        }
    }

    fn flip(&mut self, manifold: ManifoldId) -> Result<ManifoldId, GeometryError> {
        let flipped = match self.get(manifold).clone() {
            Flat::Fixed { fixed, sign } => Flat::Fixed { fixed, sign: -sign },
            Flat::Pair { from, to } => Flat::Pair { from: to, to: from },
        };
        Ok(self.store(flipped))
    }

    fn split(
        &mut self,
        manifold: ManifoldId,
        by: ManifoldId,
        _ambient: ManifoldId,
    ) -> Result<ManifoldSplit, GeometryError> {
        let (fixed, sign) = self.fixed_of(manifold)?;
        let (fixed, sign) = (fixed.clone(), sign);
        let (divider, divider_sign) = self.fixed_of(by)?;
        let axes: Vec<usize> = (0..self.ndim).filter(|i| divider[*i].is_some()).collect();
        if axes.len() != 1 {
            return Err(failure("the divider is no plane"));
        }
        let axis = axes[0];
        let c = divider[axis].unwrap();
        if let Some(v) = fixed[axis] {
            return Ok(if v == c {
                ManifoldSplit::Flush
            } else if divider_sign * (v - c) < 0 {
                ManifoldSplit::Inside
            } else {
                ManifoldSplit::Outside
            });
        }
        let wedge = sign * divider_sign * Grid::parity(&fixed, axis);
        let free = fixed.iter().filter(|c| c.is_none()).count();
        let mut met = fixed;
        met[axis] = Some(c);
        let intersection_manifold = if free >= 2 {
            self.store(Flat::Fixed { fixed: met, sign: wedge })
        } else {
            let crossing = Place::At(met.iter().map(|c| c.unwrap()).collect());
            if wedge > 0 {
                self.pair(Place::Infinity, crossing)
            } else {
                self.pair(crossing, Place::Infinity)
            }
        };
        Ok(ManifoldSplit::Split { intersection_manifold })
    }

    fn which_side(
        &self,
        manifold: ManifoldId,
        cut: ManifoldId,
        ambient: ManifoldId,
    ) -> Result<ManifoldWhichSide, GeometryError> {
        let (axis, c, sigma) = self.cut_axis(cut, ambient)?;
        let (fixed, _) = self.fixed_of(manifold)?;
        Ok(match fixed[axis] {
            None => ManifoldWhichSide { is_any_inside: true, is_any_outside: true },
            Some(v) if v == c => ManifoldWhichSide { is_any_inside: false, is_any_outside: false },
            Some(v) => {
                let inside = sigma * (v - c) < 0;
                ManifoldWhichSide { is_any_inside: inside, is_any_outside: !inside }
            }
        })
    }

    fn which_side_has_point(
        &self,
        manifold: ManifoldId,
        point: PointId,
        ambient: ManifoldId,
    ) -> Result<PointWhichSide, GeometryError> {
        let place = &self.points[point.0 as usize];
        match self.get(manifold) {
            Flat::Fixed { fixed, .. } => {
                let coordinates = match place {
                    Place::Infinity => return Ok(PointWhichSide::On),
                    Place::At(coordinates) => coordinates,
                };
                if fixed.iter().zip(coordinates).all(|(c, x)| c.is_none() || *c == Some(*x)) {
                    return Ok(PointWhichSide::On);
                }
                match self.cut_axis(manifold, ambient) {
                    Ok((axis, c, sigma)) if sigma * (coordinates[axis] - c) < 0 => {
                        Ok(PointWhichSide::Inside)
                    }
                    _ => Ok(PointWhichSide::Outside),
                }
            }
            Flat::Pair { from, to } => {
                if place == from || place == to {
                    return Ok(PointWhichSide::On);
                }
                let (axis, direction) = self.direction(ambient)?;
                let position = |p: &Place| match p {
                    Place::Infinity => FAR,
                    Place::At(coordinates) => direction * coordinates[axis],
                };
                let (start, end, x) = (position(from), position(to), position(place));
                let holds = if start <= end { start <= x && x <= end } else { x >= start || x <= end };
                Ok(if holds { PointWhichSide::Inside } else { PointWhichSide::Outside })
            }
        }
    }

    fn relative_orientation(&self, a: ManifoldId, b: ManifoldId) -> Option<Sign> {
        match (self.get(a), self.get(b)) {
            (Flat::Fixed { fixed: f, sign: s }, Flat::Fixed { fixed: g, sign: t }) if f == g => {
                Some(sign_of(s * t))
            }
            (Flat::Pair { from: a, to: b }, Flat::Pair { from: p, to: q }) if a == p && b == q => {
                Some(Sign::Pos)
            }
            (Flat::Pair { from: a, to: b }, Flat::Pair { from: p, to: q }) if a == q && b == p => {
                Some(Sign::Neg)
            }
            _ => None,
        }
    }

    fn to_point_pair(&mut self, manifold: ManifoldId) -> Result<(PointId, PointId), GeometryError> {
        match self.get(manifold).clone() {
            Flat::Pair { from, to } => Ok((self.point(from), self.point(to))),
            Flat::Fixed { .. } => Err(failure("a flat is no point pair")),
        }
    }

    fn new_point_pair(
        &mut self,
        start: PointId,
        end: PointId,
        _ambient: ManifoldId,
    ) -> Result<ManifoldId, GeometryError> {
        let from = self.points[start.0 as usize].clone();
        let to = self.points[end.0 as usize].clone();
        Ok(self.pair(from, to))
    }

    fn approx_eq(&self, a: PointId, b: PointId) -> bool {
        self.points[a.0 as usize] == self.points[b.0 as usize]
    }
}

/// The grid behind a record, for making planes and points.
trait GridOps {
    fn whole(&mut self) -> ManifoldId;
    fn plane(&mut self, axis: usize, c: i64, sign: i64) -> ManifoldId;
    fn pair(&mut self, from: Place, to: Place) -> ManifoldId;
    fn point(&mut self, place: Place) -> PointId;
    fn at(&mut self, coordinates: &[i64]) -> PointId;
    fn get(&self, m: ManifoldId) -> &Flat;
}

impl GridOps for Recorded<Grid> {
    fn whole(&mut self) -> ManifoldId {
        self.geometry_mut().whole()
    }

    fn plane(&mut self, axis: usize, c: i64, sign: i64) -> ManifoldId {
        self.geometry_mut().plane(axis, c, sign)
    }

    fn pair(&mut self, from: Place, to: Place) -> ManifoldId {
        self.geometry_mut().pair(from, to)
    }

    fn point(&mut self, place: Place) -> PointId {
        self.geometry_mut().point(place)
    }

    fn at(&mut self, coordinates: &[i64]) -> PointId {
        self.geometry_mut().at(coordinates)
    }

    fn get(&self, m: ManifoldId) -> &Flat {
        self.geometry().get(m)
    }
}

fn keep_inside(cut: ManifoldId) -> CutParams {
    CutParams { cut, inside: CutOp::Keep(None), outside: CutOp::Remove }
}

/// The cube `0 <= x, y, ... <= 2` in `ndim` dimensions, carved out of the
/// whole space by two cuts along each axis.
fn cube(ndim: usize) -> (Recorded<Grid>, ShapeArena) {
    let mut grid = Recorded::new(Grid::new(ndim));
    let space = grid.whole();
    let mut arena = ShapeArena::new(&mut grid, space).unwrap();
    for axis in 0..ndim {
        let upper = grid.plane(axis, 2, 1);
        arena.cut(&mut grid, keep_inside(upper)).unwrap();
        let lower = grid.plane(axis, 0, -1);
        arena.cut(&mut grid, keep_inside(lower)).unwrap();
    }
    (grid, arena)
}

fn boundary(arena: &ShapeArena, id: ShapeId) -> Vec<ShapeRef> {
    let mut refs = arena.shape(id).boundary.to_vec();
    refs.sort_by_key(|r| r.code());
    refs
}

fn live(arena: &ShapeArena) -> Vec<u32> {
    (0..2000).filter(|i| arena.has_shape(ShapeId(*i))).collect()
}

fn reachable(arena: &ShapeArena) -> Vec<u32> {
    let mut seen: Vec<u32> = Vec::new();
    let mut todo: Vec<ShapeId> = arena.roots().to_vec();
    while let Some(id) = todo.pop() {
        if !seen.contains(&id.0) {
            seen.push(id.0);
            todo.extend(boundary(arena, id).iter().map(|r| r.id));
        }
    }
    seen.sort();
    seen
}

fn fixed_axis(grid: &Recorded<Grid>, arena: &ShapeArena, id: ShapeId) -> (usize, i64) {
    match grid.get(arena.shape(id).manifold) {
        Flat::Fixed { fixed, .. } => {
            let axis = fixed.iter().position(|c| c.is_some()).unwrap();
            (axis, fixed[axis].unwrap())
        }
        Flat::Pair { .. } => panic!("a face lies on a plane"),
    }
}

#[test]
fn new_arena_holds_the_whole_space() {
    let mut grid = Recorded::new(Grid::new(3));
    let space = grid.whole();
    let arena = ShapeArena::new(&mut grid, space).unwrap();
    assert_eq!(arena.roots().to_vec(), vec![ShapeId(0)]);
    assert!(!arena.is_empty());
    assert_eq!(arena.space(), space);
    assert_eq!(arena.rank(ShapeId(0)), 3);
    assert_eq!(arena.shape(ShapeId(0)).manifold, space);
    assert!(arena.shape(ShapeId(0)).boundary.is_empty());
    assert_eq!(arena.get_metadata(ShapeRef::from_id(ShapeId(0))), None);
    assert_eq!(live(&arena), vec![0]);
    assert!(arena.checks());
}

#[test]
fn with_rank_takes_the_rank_as_given() {
    let arena = ShapeArena::with_rank(ManifoldId(4), 7);
    assert_eq!(arena.roots().to_vec(), vec![ShapeId(0)]);
    assert_eq!(arena.rank(ShapeId(0)), 7);
    assert_eq!(arena.space(), ManifoldId(4));
}

#[test]
fn cube_has_six_square_faces() {
    let (_grid, arena) = cube(3);
    assert_eq!(arena.roots().len(), 1);
    let root = arena.roots()[0];
    assert_eq!(arena.rank(root), 3);
    let faces = boundary(&arena, root);
    assert_eq!(faces.len(), 6);
    for face in faces {
        assert_eq!(face.sign, Sign::Pos);
        assert_eq!(arena.rank(face.id), 2);
        let edges = boundary(&arena, face.id);
        assert_eq!(edges.len(), 4);
        for edge in edges {
            assert_eq!(arena.rank(edge.id), 1);
            let ends = boundary(&arena, edge.id);
            assert_eq!(ends.len(), 1);
            assert_eq!(arena.rank(ends[0].id), 0);
        }
    }
}

#[test]
fn end_to_end_cut_through_the_centre_of_a_cube() {
    let (mut grid, mut arena) = cube(3);
    let cube_root = arena.roots()[0];
    let old_faces = boundary(&arena, cube_root);
    let before = live(&arena);

    let centre = grid.plane(0, 1, 1);
    let params = CutParams { cut: centre, inside: CutOp::Keep(Some(7)), outside: CutOp::Keep(Some(9)) };
    arena.cut(&mut grid, params).unwrap();

    // Exactly two roots, each of rank 3, each with six faces.
    assert_eq!(arena.roots().len(), 2);
    let inside = arena.roots()[0];
    let outside = arena.roots()[1];
    assert_ne!(inside, outside);
    for root in [inside, outside] {
        assert!(!before.contains(&root.0));
        assert_eq!(arena.rank(root), 3);
        assert_eq!(boundary(&arena, root).len(), 6);
    }

    // They share exactly one face, the new cross-section, which bounds the
    // inside with its positive orientation and the outside with its negative
    // one, and carries the tags of the cut.
    let inside_faces = boundary(&arena, inside);
    let outside_faces = boundary(&arena, outside);
    let shared: Vec<ShapeRef> = inside_faces
        .iter()
        .filter(|f| outside_faces.iter().any(|g| g.id == f.id))
        .copied()
        .collect();
    assert_eq!(shared.len(), 1);
    let section = shared[0];
    assert_eq!(section.sign, Sign::Pos);
    assert!(outside_faces.contains(&section.neg()));
    assert!(!before.contains(&section.id.0));
    assert_eq!(arena.rank(section.id), 2);
    assert_eq!(fixed_axis(&grid, &arena, section.id), (0, 1));
    assert_eq!(boundary(&arena, section.id).len(), 4);
    assert_eq!(arena.get_metadata(section), Some(7));
    assert_eq!(arena.get_metadata(section.neg()), Some(9));

    // The two faces parallel to the cut go whole to one side each; the four
    // faces across it are each split into two new faces.
    let mut whole = 0;
    let mut split = 0;
    for face in &old_faces {
        let (axis, at) = fixed_axis(&grid, &arena, face.id);
        let on_inside = inside_faces.contains(face);
        let on_outside = outside_faces.contains(face);
        if axis == 0 {
            whole += 1;
            assert_eq!(on_inside, at == 0);
            assert_eq!(on_outside, at == 2);
        } else {
            split += 1;
            assert!(!on_inside && !on_outside);
            for faces in [&inside_faces, &outside_faces] {
                let halves: Vec<&ShapeRef> = faces
                    .iter()
                    .filter(|f| {
                        !before.contains(&f.id.0)
                            && f.id != section.id
                            && fixed_axis(&grid, &arena, f.id) == (axis, at)
                    })
                    .collect();
                assert_eq!(halves.len(), 1);
                assert_eq!(arena.rank(halves[0].id), 2);
                assert_eq!(boundary(&arena, halves[0].id).len(), 4);
            }
        }
    }
    assert_eq!((whole, split), (2, 4));

    // The two halves hold the points on their side of the cut.
    for x in 0..=2 {
        let p = grid.at(&[x, 1, 1]);
        assert_eq!(arena.shape_contains_point(&mut grid, inside, p), Ok(x <= 1));
        assert_eq!(arena.shape_contains_point(&mut grid, outside, p), Ok(x >= 1));
        assert_eq!(arena.shape_interior_contains_point(&mut grid, inside, p), Ok(false));
    }
}

#[test]
fn cut_keeps_only_what_the_policy_keeps() {
    let (mut grid, mut arena) = cube(2);
    let centre = grid.plane(1, 1, 1);
    let params = CutParams { cut: centre, inside: CutOp::Remove, outside: CutOp::Keep(None) };
    arena.cut(&mut grid, params).unwrap();
    assert_eq!(arena.roots().len(), 1);
    let kept = arena.roots()[0];
    let low = grid.at(&[1, 0]);
    let high = grid.at(&[1, 2]);
    assert_eq!(arena.shape_contains_point(&mut grid, kept, low), Ok(false));
    assert_eq!(arena.shape_contains_point(&mut grid, kept, high), Ok(true));

    let again = grid.plane(0, 1, 1);
    let params = CutParams { cut: again, inside: CutOp::Remove, outside: CutOp::Remove };
    arena.cut(&mut grid, params).unwrap();
    assert!(arena.is_empty());
    arena.gc();
    assert_eq!(live(&arena), Vec::<u32>::new());
}

#[test]
fn cut_of_an_arena_without_roots_changes_nothing() {
    let (mut grid, mut arena) = cube(1);
    let centre = grid.plane(0, 1, 1);
    let params = CutParams { cut: centre, inside: CutOp::Remove, outside: CutOp::Remove };
    arena.cut(&mut grid, params).unwrap();
    let before = live(&arena);
    let params = CutParams { cut: centre, inside: CutOp::Keep(None), outside: CutOp::Keep(None) };
    assert_eq!(arena.cut(&mut grid, params), Ok(()));
    assert!(arena.is_empty());
    assert_eq!(live(&arena), before);
}

#[test]
fn degenerate_cut_outside_allocates_nothing() {
    let (mut grid, mut arena) = cube(3);
    let root = arena.roots()[0];
    let before = live(&arena);
    // The face on the plane `x = 2` is wholly outside the cut `x < 1`.
    let face = boundary(&arena, root)
        .into_iter()
        .find(|f| fixed_axis(&grid, &arena, f.id) == (0, 2))
        .unwrap();
    let centre = grid.plane(0, 1, 1);
    let mut op = SliceOperation::new(keep_inside(centre));
    assert_eq!(arena.cut_shape(&mut grid, face, &mut op), Ok(ShapeSplit::ManifoldOutside));
    assert_eq!(live(&arena), before);
    assert_eq!(op.lookup(face.id), Some(ShapeSplit::ManifoldOutside));

    let mut op = SliceOperation::new(keep_inside(centre));
    assert_eq!(
        arena.cut_shape_classified(&mut grid, face.id, ManifoldSplit::Outside, &mut op),
        Ok(ShapeSplit::ManifoldOutside)
    );
    assert_eq!(
        arena.cut_shape_classified(&mut grid, face.id, ManifoldSplit::Inside, &mut op),
        Ok(ShapeSplit::ManifoldInside)
    );
    assert_eq!(op.lookup(face.id), None);
    assert_eq!(live(&arena), before);
}

#[test]
fn flush_cut_is_idempotent() {
    let (mut grid, mut arena) = cube(3);
    let root = arena.roots()[0];
    let face = boundary(&arena, root)
        .into_iter()
        .find(|f| fixed_axis(&grid, &arena, f.id) == (1, 2))
        .unwrap();
    let before = live(&arena);
    let same_plane = grid.plane(1, 2, 1);
    let mut op = SliceOperation::new(keep_inside(same_plane));
    assert_eq!(arena.cut_shape(&mut grid, face, &mut op), Ok(ShapeSplit::Flush));
    assert_eq!(arena.cut_shape(&mut grid, face, &mut op), Ok(ShapeSplit::Flush));
    assert_eq!(arena.cut_shape(&mut grid, face.neg(), &mut op), Ok(ShapeSplit::Flush));
    assert_eq!(live(&arena), before);

    // Cutting the cube along the plane of a face leaves the cube as it is,
    // with that face as the intersection, and does so again when repeated.
    let faces = boundary(&arena, root);
    arena.gc();
    let needed = live(&arena);
    for _ in 0..2 {
        let params = CutParams {
            cut: same_plane,
            inside: CutOp::Keep(Some(1)),
            outside: CutOp::Keep(Some(2)),
        };
        arena.cut(&mut grid, params).unwrap();
        assert_eq!(arena.roots().to_vec(), vec![root]);
        assert_eq!(boundary(&arena, root), faces);
        // The face was there before the cut: it keeps its own tags.
        assert_eq!(arena.get_metadata(face), None);
        assert_eq!(arena.get_metadata(face.neg()), None);
        // Only scratch shapes were made, and no root needs them.
        arena.gc();
        assert_eq!(live(&arena), needed);
    }
}

#[test]
fn cut_shape_is_sign_equivariant() {
    let (mut grid, mut arena) = cube(3);
    let root = arena.roots()[0];
    let centre = grid.plane(2, 1, 1);
    let mut op = SliceOperation::new(keep_inside(centre));
    for face in boundary(&arena, root) {
        let positive = arena.cut_shape(&mut grid, face, &mut op).unwrap();
        let count = live(&arena).len();
        let negative = arena.cut_shape(&mut grid, face.neg(), &mut op).unwrap();
        assert_eq!(negative, positive.neg());
        assert_eq!(negative.neg(), positive);
        assert_eq!(live(&arena).len(), count);
        assert_eq!(op.lookup(face.id), Some(positive.times(face.sign)));
    }
    let whole = arena.cut_shape(&mut grid, ShapeRef::from_id(root).neg(), &mut op).unwrap();
    match whole {
        ShapeSplit::NonFlush { inside: Some(i), outside: Some(o), intersection_shape: Some(x) } => {
            assert_eq!((i.sign, o.sign, x.sign), (Sign::Neg, Sign::Neg, Sign::Neg));
        }
        other => panic!("unexpected split {other:?}"),
    }
}

#[test]
fn splits_of_a_cube_are_closed() {
    for axis in 0..3 {
        for at in [-1, 0, 1, 2, 3] {
            let (mut grid, mut arena) = cube(3);
            let root = arena.roots()[0];
            let cut = grid.plane(axis, at, 1);
            let mut op = SliceOperation::new(keep_inside(cut));
            let split = arena.cut_shape(&mut grid, ShapeRef::from_id(root), &mut op).unwrap();
            assert!(split.is_closed());
            for id in live(&arena) {
                if let Some(found) = op.lookup(ShapeId(id)) {
                    assert!(found.is_closed(), "{found:?}");
                    assert!(found.neg().is_closed());
                }
            }
            match split {
                ShapeSplit::NonFlush { inside, outside, intersection_shape } => {
                    assert_eq!(inside.is_some(), at > 0);
                    assert_eq!(outside.is_some(), at < 2);
                    assert_eq!(intersection_shape.is_some(), (0..=2).contains(&at));
                }
                other => panic!("unexpected split {other:?}"),
            }
        }
    }
}

#[test]
fn boundary_elements_have_one_dimension_less() {
    let (mut grid, mut arena) = cube(3);
    let check = |arena: &ShapeArena| {
        for id in live(arena) {
            for r in boundary(arena, ShapeId(id)) {
                assert!(arena.has_shape(r.id));
                assert_eq!(arena.rank(r.id) + 1, arena.rank(ShapeId(id)));
            }
        }
    };
    check(&arena);
    for (axis, at) in [(0, 1), (1, 1), (2, 1)] {
        let cut = grid.plane(axis, at, 1);
        let params = CutParams { cut, inside: CutOp::Keep(None), outside: CutOp::Keep(None) };
        arena.cut(&mut grid, params).unwrap();
        check(&arena);
    }
    assert_eq!(arena.roots().len(), 8);
    arena.gc();
    check(&arena);
    assert_eq!(arena.roots().len(), 8);
}

#[test]
fn gc_keeps_exactly_what_the_roots_reach() {
    let (mut grid, mut arena) = cube(3);
    let centre = grid.plane(1, 1, 1);
    let params = CutParams { cut: centre, inside: CutOp::Keep(None), outside: CutOp::Remove };
    arena.cut(&mut grid, params).unwrap();
    let all = live(&arena);
    let needed = reachable(&arena);
    assert!(needed.len() < all.len());
    let roots = arena.roots().to_vec();
    let kept_boundary = boundary(&arena, roots[0]);
    arena.gc();
    assert_eq!(live(&arena), needed);
    assert_eq!(arena.roots().to_vec(), roots);
    assert_eq!(boundary(&arena, roots[0]), kept_boundary);
    // Nothing more goes the second time.
    arena.gc();
    assert_eq!(live(&arena), needed);
    // A freed identifier is used again.
    let m = grid.plane(0, 5, 1);
    let added = arena.add(&mut grid, Shape::whole_space(m)).unwrap();
    assert!(!needed.contains(&added.id.0));
    assert!(all.contains(&added.id.0));
}

#[test]
fn gc_mark_takes_out_what_a_shape_needs() {
    let (_grid, arena) = cube(2);
    let root = arena.roots()[0];
    let mut keys = ShapeSet::new();
    for id in live(&arena) {
        keys.insert(ShapeRef::from_id(ShapeId(id)));
    }
    let edge = boundary(&arena, root)[0];
    arena.gc_mark_recursive(&mut keys, edge.id);
    let mut gone = vec![edge.id.0];
    gone.extend(boundary(&arena, edge.id).iter().map(|r| r.id.0));
    for id in live(&arena) {
        assert_eq!(keys.contains(ShapeRef::from_id(ShapeId(id))), !gone.contains(&id));
    }
}

#[test]
fn points_in_and_around_a_square() {
    let (mut grid, arena) = cube(2);
    let root = arena.roots()[0];
    for x in -1..=3 {
        for y in -1..=3 {
            let p = grid.at(&[x, y]);
            let closed = (0..=2).contains(&x) && (0..=2).contains(&y);
            let open = x == 1 && y == 1;
            assert_eq!(arena.shape_contains_point(&mut grid, root, p), Ok(closed));
            assert_eq!(arena.shape_interior_contains_point(&mut grid, root, p), Ok(open));
        }
    }
    // A point off the line of an edge is in neither the edge nor its interior.
    let edge = boundary(&arena, root)
        .into_iter()
        .find(|e| fixed_axis(&grid, &arena, e.id) == (0, 2))
        .unwrap();
    let on = grid.at(&[2, 1]);
    let corner = grid.at(&[2, 2]);
    let off = grid.at(&[1, 1]);
    let beyond = grid.at(&[2, 3]);
    assert_eq!(arena.shape_contains_point(&mut grid, edge.id, on), Ok(true));
    assert_eq!(arena.shape_interior_contains_point(&mut grid, edge.id, on), Ok(true));
    assert_eq!(arena.shape_contains_point(&mut grid, edge.id, corner), Ok(true));
    assert_eq!(arena.shape_interior_contains_point(&mut grid, edge.id, corner), Ok(false));
    assert_eq!(arena.shape_contains_point(&mut grid, edge.id, off), Ok(false));
    assert_eq!(arena.shape_interior_contains_point(&mut grid, edge.id, off), Ok(false));
    assert_eq!(arena.shape_contains_point(&mut grid, edge.id, beyond), Ok(false));
}

#[test]
fn add_checks_the_rank_of_the_boundary() {
    let (mut grid, mut arena) = cube(2);
    let root = arena.roots()[0];
    let edge = boundary(&arena, root)[0];
    let before = live(&arena);

    // An edge cannot bound a line, nor the square a plane.
    let line = grid.plane(0, 7, 1);
    let mut edges = ShapeSet::new();
    edges.insert(edge);
    assert_eq!(arena.add(&mut grid, Shape::new(line, edges.clone())), Err(CutError::RankMismatch));
    assert_eq!(
        arena.add_with_rank(&mut grid, Shape::new(line, edges.clone()), 3),
        Err(CutError::RankMismatch)
    );
    assert_eq!(live(&arena), before);
    assert!(!arena.check_ranks(&edges, 1));
    assert!(arena.check_ranks(&edges, 2));
    assert!(arena.check_ranks(&ShapeSet::new(), 9));

    // A single bounded edge is no closed polygon.
    let space = arena.space();
    assert_eq!(arena.is_closed_polygon(&mut grid, &edges), Ok(false));
    assert_eq!(arena.add(&mut grid, Shape::new(space, edges.clone())), Err(CutError::InvalidPolygon));
    assert_eq!(live(&arena), before);

    // Without the checks it is taken.
    arena.set_checks(false);
    assert!(!arena.checks());
    let added = arena.add(&mut grid, Shape::new(space, edges.clone())).unwrap();
    assert_eq!(added.sign, Sign::Pos);
    assert!(!before.contains(&added.id.0));
    assert_eq!(arena.rank(added.id), 2);
    assert_eq!(boundary(&arena, added.id), vec![edge]);
    assert_eq!(arena.get_metadata(added), None);
    assert_eq!(arena.roots().to_vec(), vec![root]);

    // All the edges of the square do chain into a loop.
    arena.set_checks(true);
    let all_edges = arena.shape(root).boundary.clone();
    assert_eq!(arena.is_closed_polygon(&mut grid, &all_edges), Ok(true));
}

#[test]
fn add_subshape_reuses_a_shape_with_the_same_boundary() {
    let (mut grid, mut arena) = cube(2);
    let root = arena.roots()[0];
    arena.set_metadata(ShapeRef::from_id(root), Some(3));
    arena.set_metadata(ShapeRef::from_id(root).neg(), Some(4));
    assert_eq!(arena.get_metadata(ShapeRef::from_id(root)), Some(3));
    assert_eq!(arena.get_metadata(ShapeRef::from_id(root).neg()), Some(4));
    let before = live(&arena);

    let same = arena.shape(root).boundary.clone();
    assert_eq!(arena.add_subshape(&mut grid, root, same), Ok(ShapeRef::from_id(root)));
    assert_eq!(live(&arena), before);

    // Another boundary makes a new shape with the manifold, rank and tags of
    // the old one.
    arena.set_checks(false);
    let mut fewer = arena.shape(root).boundary.clone();
    let dropped = boundary(&arena, root)[0];
    assert!(fewer.remove(dropped));
    let sub = arena.add_subshape(&mut grid, root, fewer).unwrap();
    assert_ne!(sub.id, root);
    assert_eq!(sub.sign, Sign::Pos);
    assert_eq!(arena.rank(sub.id), 2);
    assert_eq!(arena.shape(sub.id).manifold, arena.shape(root).manifold);
    assert_eq!(boundary(&arena, sub.id).len(), 3);
    assert!(!boundary(&arena, sub.id).contains(&dropped));
    assert_eq!(arena.get_metadata(sub), Some(3));
    assert_eq!(arena.get_metadata(sub.neg()), Some(4));

    // A boundary of the wrong rank is refused.
    let mut wrong = ShapeSet::new();
    wrong.insert(ShapeRef::from_id(root));
    let count = live(&arena);
    assert_eq!(arena.add_subshape(&mut grid, root, wrong), Err(CutError::RankMismatch));
    assert_eq!(live(&arena), count);
}

#[test]
fn tags_follow_the_parts_of_a_split() {
    let (mut grid, mut arena) = cube(2);
    let root = arena.roots()[0];
    arena.set_metadata(ShapeRef::from_id(root), Some(11));
    arena.set_metadata(ShapeRef::from_id(root).neg(), Some(12));
    let centre = grid.plane(0, 1, 1);
    let params = CutParams { cut: centre, inside: CutOp::Keep(Some(5)), outside: CutOp::Keep(None) };
    let mut op = SliceOperation::new(params);
    assert_eq!(op.divider(), centre);
    assert_eq!(op.inside_metadata(), Some(5));
    assert_eq!(op.outside_metadata(), None);
    let split = arena.cut_shape(&mut grid, ShapeRef::from_id(root), &mut op).unwrap();
    match split {
        ShapeSplit::NonFlush { inside: Some(i), outside: Some(o), intersection_shape: Some(x) } => {
            for part in [i, o] {
                assert_eq!(arena.get_metadata(ShapeRef::from_id(part.id)), Some(11));
                assert_eq!(arena.get_metadata(ShapeRef::from_id(part.id).neg()), Some(12));
            }
            assert_eq!(arena.get_metadata(x), Some(5));
            assert_eq!(arena.get_metadata(x.neg()), None);

            // The shape itself keeps its tags.
            assert_eq!(arena.get_metadata(ShapeRef::from_id(root)), Some(11));
            assert_eq!(arena.get_metadata(ShapeRef::from_id(root).neg()), Some(12));

            // Both tags of a shape can be given at once.
            arena.tag_both(x.neg(), Some(21), Some(22));
            assert_eq!(arena.get_metadata(x.neg()), Some(21));
            assert_eq!(arena.get_metadata(x), Some(22));
            assert_eq!(arena.get_metadata(ShapeRef::from_id(i.id)), Some(11));
        }
        other => panic!("unexpected split {other:?}"),
    }
}

#[test]
fn signed_manifolds_and_point_pairs() {
    let (mut grid, arena) = cube(1);
    let root = arena.roots()[0];
    let pair = boundary(&arena, root)[0];
    let m = arena.shape(pair.id).manifold;
    assert_eq!(arena.signed_manifold_of_shape(&mut grid, ShapeRef::from_id(pair.id)), Ok(m));
    let flipped = arena.signed_manifold_of_shape(&mut grid, ShapeRef::from_id(pair.id).neg()).unwrap();
    assert_eq!(grid.relative_orientation(m, flipped), Some(Sign::Neg));

    let zero = grid.at(&[0]);
    let two = grid.at(&[2]);
    assert_eq!(pair.sign, Sign::Pos);
    assert_eq!(arena.shape_to_point_pair(&mut grid, SignedManifold::Shape(pair)), Ok((zero, two)));
    assert_eq!(arena.shape_to_point_pair(&mut grid, SignedManifold::Shape(pair.neg())), Ok((two, zero)));
    assert_eq!(arena.shape_to_point_pair(&mut grid, SignedManifold::Manifold(flipped)), Ok((two, zero)));
    assert!(arena.shape_to_point_pair(&mut grid, SignedManifold::Shape(ShapeRef::from_id(root))).is_err());

    assert_eq!(
        arena.sign_difference(&mut grid, SignedManifold::Shape(pair), SignedManifold::Manifold(m)),
        Some(Sign::Pos)
    );
    assert_eq!(
        arena.sign_difference(&mut grid, SignedManifold::Shape(pair.neg()), SignedManifold::Manifold(m)),
        Some(Sign::Neg)
    );
    assert_eq!(
        arena.sign_difference(&mut grid, SignedManifold::Shape(pair.neg()), SignedManifold::Manifold(flipped)),
        Some(Sign::Pos)
    );
    assert_eq!(
        arena.sign_difference(&mut grid, SignedManifold::Shape(pair), SignedManifold::Shape(ShapeRef::from_id(root))),
        None
    );
    assert_eq!(SignedManifold::Shape(pair.neg()).sign(), Sign::Neg);
    assert_eq!(SignedManifold::Manifold(m).sign(), Sign::Pos);
    assert_eq!(SignedManifold::Shape(pair).get_manifold_from(&arena), m);
    assert_eq!(SignedManifold::Manifold(flipped).get_manifold_from(&arena), flipped);
}

/// The places that the interval of a signed point pair holds, read off the
/// pair itself: the stretch from its first point to its second along the
/// line, through infinity if the second comes before the first.
fn holds(from: &Place, to: &Place, x: &Place) -> bool {
    let position = |p: &Place| match p {
        Place::Infinity => FAR,
        Place::At(coordinates) => coordinates[0],
    };
    let (start, end, x) = (position(from), position(to), position(x));
    if start <= end {
        start <= x && x <= end
    } else {
        x >= start || x <= end
    }
}

#[test]
fn merged_intervals_agree_with_endpoint_containment() {
    let places: Vec<Place> = vec![
        Place::Infinity,
        Place::At(vec![0]),
        Place::At(vec![1]),
        Place::At(vec![2]),
        Place::At(vec![3]),
    ];
    let samples: Vec<Place> = vec![
        Place::Infinity,
        Place::At(vec![-1]),
        Place::At(vec![0]),
        Place::At(vec![1]),
        Place::At(vec![2]),
        Place::At(vec![3]),
        Place::At(vec![4]),
    ];
    let mut grid = Recorded::new(Grid::new(1));
    let line = grid.whole();
    let mut arena = ShapeArena::new(&mut grid, line).unwrap();
    let mut pairs: Vec<(Place, Place, ShapeRef)> = Vec::new();
    for a in &places {
        for b in &places {
            if a != b {
                let m = grid.pair(a.clone(), b.clone());
                let shape = arena.add(&mut grid, Shape::whole_space(m)).unwrap();
                pairs.push((a.clone(), b.clone(), shape));
            }
        }
    }
    // A number generator picks which pairs meet, and with which signs.
    let mut state: u64 = 0x2545_f491_4f6c_dd1d;
    let mut next = |bound: usize| {
        state = state.wrapping_mul(6364136223846793005).wrapping_add(1442695040888963407);
        ((state >> 33) as usize) % bound
    };
    let mut outcomes = [0usize; 4];
    for round in 0..600 {
        let (first, second) = if round < 400 {
            (round / 20, round % 20)
        } else {
            (next(pairs.len()), next(pairs.len()))
        };
        let flip_first = round >= 400 && next(2) == 1;
        let flip_second = round >= 400 && next(2) == 1;
        let oriented = |entry: &(Place, Place, ShapeRef), flip: bool| {
            if flip {
                (entry.1.clone(), entry.0.clone(), entry.2.neg())
            } else {
                entry.clone()
            }
        };
        let (a, b, ab) = oriented(&pairs[first], flip_first);
        let (p, q, pq) = oriented(&pairs[second], flip_second);

        // What the arena says of a point agrees with the pairs themselves.
        for x in &samples {
            let at = grid.point(x.clone());
            assert_eq!(
                arena.closed_interval_contains_point(&mut grid, SignedManifold::Shape(ab), at, line),
                Ok(holds(&a, &b, x))
            );
        }

        let merged = arena.try_merge_intervals(&mut grid, ab, pq, line).unwrap();
        let in_first = |x: &Place| holds(&a, &b, x);
        let in_second = |x: &Place| holds(&p, &q, x);
        match merged {
            hyperspeedcube::intervals::MergedInterval::Old(kept) => {
                outcomes[0] += 1;
                assert!(kept == ab || kept == pq);
                let (from, to) = if kept == ab { (&a, &b) } else { (&p, &q) };
                for x in &samples {
                    assert_eq!(holds(from, to, x), in_first(x) || in_second(x));
                }
            }
            hyperspeedcube::intervals::MergedInterval::New(m) => {
                outcomes[1] += 1;
                let (from, to) = match grid.get(m).clone() {
                    Flat::Pair { from, to } => (from, to),
                    other => panic!("no point pair: {other:?}"),
                };
                for x in &samples {
                    assert_eq!(holds(&from, &to, x), in_first(x) || in_second(x));
                    let at = grid.point(x.clone());
                    assert_eq!(
                        grid.which_side_has_point(m, at, line).map(|side| side != PointWhichSide::Outside),
                        Ok(in_first(x) || in_second(x))
                    );
                }
            }
            hyperspeedcube::intervals::MergedInterval::WholeSpace => {
                outcomes[2] += 1;
                for x in &samples {
                    assert!(in_first(x) || in_second(x));
                }
            }
            hyperspeedcube::intervals::MergedInterval::NoIntersection => {
                outcomes[3] += 1;
                for x in &samples {
                    assert!(!(in_first(x) && in_second(x)));
                }
            }
        }
    }
    // Every kind of outcome was met.
    assert!(outcomes.iter().all(|n| *n > 0), "{outcomes:?}");
}

#[test]
fn intervals_are_intersected_one_by_one() {
    let mut grid = Recorded::new(Grid::new(1));
    let line = grid.whole();
    let mut arena = ShapeArena::new(&mut grid, line).unwrap();
    let mut interval = |grid: &mut Recorded<Grid>, arena: &mut ShapeArena, from: Place, to: Place| {
        let m = grid.pair(from, to);
        arena.add(grid, Shape::whole_space(m)).unwrap()
    };
    let from_zero = interval(&mut grid, &mut arena, Place::At(vec![0]), Place::Infinity);
    let from_one = interval(&mut grid, &mut arena, Place::At(vec![1]), Place::Infinity);
    let up_to_three = interval(&mut grid, &mut arena, Place::Infinity, Place::At(vec![3]));
    let up_to_minus_one = interval(&mut grid, &mut arena, Place::Infinity, Place::At(vec![-1]));

    // The intersection of no intervals is the whole line.
    let none = arena.simplify_intervals_intersection(&mut grid, &Vec::new(), line).unwrap().unwrap();
    assert!(none.is_empty());

    // One interval alone stays.
    let alone = arena
        .incremental_simplify_intervals_intersection(&mut grid, &ShapeSet::new(), from_zero, line)
        .unwrap()
        .unwrap();
    assert_eq!(alone.to_vec(), vec![from_zero]);

    // Of two nested half-lines the smaller stays.
    let nested = arena
        .simplify_intervals_intersection(&mut grid, &vec![from_zero, from_one], line)
        .unwrap()
        .unwrap();
    assert_eq!(nested.to_vec(), vec![from_one]);
    let nested = arena
        .simplify_intervals_intersection(&mut grid, &vec![from_one, from_zero], line)
        .unwrap()
        .unwrap();
    assert_eq!(nested.to_vec(), vec![from_one]);

    // Two half-lines that overlap leave the segment between their ends, as
    // one new interval.
    let before = live(&arena);
    let segment = arena
        .simplify_intervals_intersection(&mut grid, &vec![from_one, up_to_three], line)
        .unwrap()
        .unwrap();
    let members = segment.to_vec();
    assert_eq!(members.len(), 1);
    assert!(!before.contains(&members[0].id.0));
    let one = grid.at(&[1]);
    let three = grid.at(&[3]);
    assert_eq!(arena.shape_to_point_pair(&mut grid, SignedManifold::Shape(members[0])), Ok((one, three)));
    for x in -1..=4 {
        let at = grid.at(&[x]);
        assert_eq!(
            arena.closed_interval_contains_point(&mut grid, SignedManifold::Shape(members[0]), at, line),
            Ok((1..=3).contains(&x))
        );
    }

    // Two half-lines that do not overlap leave nothing.
    assert!(arena
        .simplify_intervals_intersection(&mut grid, &vec![from_zero, up_to_minus_one], line)
        .unwrap()
        .is_none());

    // The same through the boundary of a shape.
    let mut both = ShapeSet::new();
    both.insert(from_one);
    both.insert(up_to_three);
    let simplified = arena.simplify_boundary_of_rank(&mut grid, 1, line, both.clone()).unwrap();
    assert_eq!(simplified.to_vec().len(), 1);
    let simplified = arena.simplify_shape_boundary(&mut grid, line, both.clone()).unwrap();
    assert_eq!(simplified.to_vec().len(), 1);
    let mut apart = ShapeSet::new();
    apart.insert(from_zero);
    apart.insert(up_to_minus_one);
    assert!(arena.simplify_boundary_of_rank(&mut grid, 1, line, apart).unwrap().is_empty());

    // Elsewhere than on a line, opposite references cancel and nothing else
    // is done.
    let mut mixed = ShapeSet::new();
    mixed.insert(from_one);
    mixed.insert(up_to_three);
    mixed.insert(up_to_three.neg());
    let before = live(&arena);
    let cancelled = arena.simplify_boundary_of_rank(&mut grid, 2, line, mixed).unwrap();
    assert_eq!(cancelled.to_vec(), vec![from_one]);
    assert_eq!(live(&arena), before);

    // Two half-lines share the point at infinity; two segments apart share
    // nothing.
    assert_eq!(arena.endpoints_are_distinct(&mut grid, &both), Ok(false));
    let low = interval(&mut grid, &mut arena, Place::At(vec![0]), Place::At(vec![1]));
    let high = interval(&mut grid, &mut arena, Place::At(vec![2]), Place::At(vec![3]));
    let mut segments = ShapeSet::new();
    segments.insert(low);
    segments.insert(high);
    assert_eq!(arena.endpoints_are_distinct(&mut grid, &segments), Ok(true));
    let mut touching = ShapeSet::new();
    touching.insert(from_one);
    touching.insert(from_zero);
    assert_eq!(arena.endpoints_are_distinct(&mut grid, &touching), Ok(false));
    assert_eq!(arena.endpoints_are_distinct(&mut grid, &ShapeSet::new()), Ok(true));
}

/// A geometry that answers as it is told.
struct Script {
    ndim: Vec<Option<u8>>,
    splits: Vec<Option<ManifoldSplit>>,
    side: ManifoldWhichSide,
    point_side: PointWhichSide,
    /// The side of a point by the number of the manifold, for the manifolds
    /// that it lists; `point_side` is for the others.
    point_sides: Vec<PointWhichSide>,
    relative: Option<Sign>,
    points_coincide: bool,
}

impl Script {
    fn new(ndim: Vec<Option<u8>>, splits: Vec<Option<ManifoldSplit>>) -> Script {
        Script {
            ndim,
            splits,
            side: ManifoldWhichSide { is_any_inside: true, is_any_outside: true },
            point_side: PointWhichSide::Inside,
            point_sides: vec![],
            relative: None,
            points_coincide: false,
        }
    }
}

impl ManifoldSpace for Script {
    fn ndim(&self, manifold: ManifoldId) -> Result<u8, GeometryError> {
        self.ndim[manifold.0 as usize].ok_or(failure("no dimension"))
    }

    fn flip(&mut self, manifold: ManifoldId) -> Result<ManifoldId, GeometryError> {
        Ok(manifold)
    }

    fn split(
        &mut self,
        manifold: ManifoldId,
        _by: ManifoldId,
        _ambient: ManifoldId,
    ) -> Result<ManifoldSplit, GeometryError> {
        self.splits[manifold.0 as usize].ok_or(failure("no split"))
    }

    fn which_side(
        &self,
        _manifold: ManifoldId,
        _cut: ManifoldId,
        _ambient: ManifoldId,
    ) -> Result<ManifoldWhichSide, GeometryError> {
        Ok(self.side)
    }

    fn which_side_has_point(
        &self,
        manifold: ManifoldId,
        _point: PointId,
        _ambient: ManifoldId,
    ) -> Result<PointWhichSide, GeometryError> {
        Ok(*self.point_sides.get(manifold.0 as usize).unwrap_or(&self.point_side))
    }

    fn relative_orientation(&self, _a: ManifoldId, _b: ManifoldId) -> Option<Sign> {
        self.relative
    }

    fn to_point_pair(&mut self, manifold: ManifoldId) -> Result<(PointId, PointId), GeometryError> {
        Ok((PointId(2 * manifold.0), PointId(2 * manifold.0 + 1)))
    }

    fn new_point_pair(
        &mut self,
        _start: PointId,
        _end: PointId,
        ambient: ManifoldId,
    ) -> Result<ManifoldId, GeometryError> {
        Ok(ambient)
    }

    fn approx_eq(&self, a: PointId, b: PointId) -> bool {
        self.points_coincide || a == b
    }
}

/// A polygon on manifold 1 with two unbounded edges, on manifolds 2 and 3;
/// manifold 0 is the space, and manifold 4 a line.
fn scripted_polygon(
    splits: Vec<Option<ManifoldSplit>>,
) -> (Recorded<Script>, ShapeArena, ShapeRef, ShapeRef, ShapeRef) {
    let mut script = Recorded::new(Script::new(vec![Some(3), Some(2), Some(1), Some(1), Some(1)], splits));
    let mut arena = ShapeArena::new(&mut script, ManifoldId(0)).unwrap();
    let first = arena.add(&mut script, Shape::whole_space(ManifoldId(2))).unwrap();
    let second = arena.add(&mut script, Shape::whole_space(ManifoldId(3))).unwrap();
    let mut edges = ShapeSet::new();
    edges.insert(first);
    edges.insert(second);
    let polygon = arena.add(&mut script, Shape::new(ManifoldId(1), edges)).unwrap();
    (script, arena, polygon, first, second)
}

fn crossing() -> Option<ManifoldSplit> {
    Some(ManifoldSplit::Split { intersection_manifold: ManifoldId(4) })
}

#[test]
fn geometry_failures_are_passed_on() {
    let mut failing = Recorded::new(Script::new(vec![None], vec![None]));
    assert_eq!(
        ShapeArena::new(&mut failing, ManifoldId(0)).err(),
        Some(CutError::Geometry(failure("no dimension")))
    );

    let mut script = Recorded::new(Script::new(vec![Some(2), None], vec![None, None]));
    let mut arena = ShapeArena::new(&mut script, ManifoldId(0)).unwrap();
    assert_eq!(
        arena.add(&mut script, Shape::whole_space(ManifoldId(1))),
        Err(CutError::Geometry(failure("no dimension")))
    );
    let params = keep_inside(ManifoldId(1));
    assert_eq!(arena.cut(&mut script, params), Err(CutError::Geometry(failure("no split"))));
    assert_eq!(arena.roots().to_vec(), vec![ShapeId(0)]);
    assert_eq!(live(&arena), vec![0]);
}

#[test]
fn a_root_must_be_split_by_the_cut() {
    for settled in [ManifoldSplit::Flush, ManifoldSplit::Inside, ManifoldSplit::Outside] {
        let mut script = Recorded::new(Script::new(vec![Some(2)], vec![Some(settled)]));
        let mut arena = ShapeArena::new(&mut script, ManifoldId(0)).unwrap();
        let params = CutParams { cut: ManifoldId(0), inside: CutOp::Keep(None), outside: CutOp::Keep(None) };
        assert_eq!(arena.cut(&mut script, params), Err(CutError::RootNotSplit));
        assert_eq!(arena.roots().to_vec(), vec![ShapeId(0)]);
    }
}

#[test]
fn two_flush_boundary_elements_are_an_error() {
    let flush = Some(ManifoldSplit::Flush);
    let (mut script, mut arena, polygon, _, _) =
        scripted_polygon(vec![crossing(), crossing(), flush, flush, None]);
    let mut op = SliceOperation::new(keep_inside(ManifoldId(0)));
    assert_eq!(
        arena.cut_shape(&mut script, polygon, &mut op),
        Err(CutError::MultipleIntersectionShapes)
    );
    assert_eq!(op.lookup(polygon.id), None);
}

#[test]
fn a_flush_boundary_element_must_lie_on_the_intersection() {
    let flush = Some(ManifoldSplit::Flush);
    let inside = Some(ManifoldSplit::Inside);
    let (mut script, mut arena, polygon, first, second) =
        scripted_polygon(vec![crossing(), crossing(), flush, inside, None]);
    let mut op = SliceOperation::new(keep_inside(ManifoldId(0)));
    assert_eq!(arena.cut_shape(&mut script, polygon, &mut op), Err(CutError::IntersectionMismatch));

    // With the orientation of the intersection the flush edge bounds the
    // inside, which is then the whole polygon.
    script.geometry_mut().relative = Some(Sign::Pos);
    let before = live(&arena);
    let mut op = SliceOperation::new(keep_inside(ManifoldId(0)));
    assert_eq!(
        arena.cut_shape(&mut script, polygon, &mut op),
        Ok(ShapeSplit::NonFlush { inside: Some(polygon), outside: None, intersection_shape: Some(first) })
    );
    assert_eq!(live(&arena), before);

    // With the opposite orientation it bounds the outside, alone.
    script.geometry_mut().relative = Some(Sign::Neg);
    let mut op = SliceOperation::new(keep_inside(ManifoldId(0)));
    let split = arena.cut_shape(&mut script, polygon, &mut op).unwrap();
    match split {
        ShapeSplit::NonFlush { inside: Some(i), outside: Some(o), intersection_shape: Some(x) } => {
            assert_eq!(x, first.neg());
            assert_eq!(boundary(&arena, i.id), vec![second]);
            assert_eq!(boundary(&arena, o.id), vec![first]);
        }
        other => panic!("unexpected split {other:?}"),
    }
}

#[test]
fn a_boundary_element_that_excludes_the_cut_ends_the_split() {
    let inside = Some(ManifoldSplit::Inside);
    let outside = Some(ManifoldSplit::Outside);
    for (settled, is_inside) in [(inside, true), (outside, false)] {
        let (mut script, mut arena, polygon, _, _) =
            scripted_polygon(vec![crossing(), crossing(), settled, settled, None]);
        script.geometry_mut().side = ManifoldWhichSide { is_any_inside: false, is_any_outside: true };
        let before = live(&arena);
        let mut op = SliceOperation::new(keep_inside(ManifoldId(0)));
        let split = arena.cut_shape(&mut script, polygon, &mut op).unwrap();
        assert_eq!(split, ShapeSplit::unsplit_whole(polygon.id, is_inside));
        assert!(split.is_closed());
        assert_eq!(live(&arena), before);
    }
}

#[test]
fn a_geometry_may_leave_a_split_open() {
    // One edge is inside the cut and one outside, each with a part of the
    // cut on its inside, and yet the cut is said to miss the polygon.
    let inside = Some(ManifoldSplit::Inside);
    let outside = Some(ManifoldSplit::Outside);
    let (mut script, mut arena, polygon, first, second) =
        scripted_polygon(vec![crossing(), crossing(), inside, outside, None]);
    let mut op = SliceOperation::new(keep_inside(ManifoldId(0)));
    let split = arena.cut_shape(&mut script, polygon, &mut op).unwrap();
    match split {
        ShapeSplit::NonFlush { inside: Some(i), outside: Some(o), intersection_shape: None } => {
            assert_eq!(boundary(&arena, i.id), vec![first]);
            assert_eq!(boundary(&arena, o.id), vec![second]);
        }
        other => panic!("unexpected split {other:?}"),
    }
    assert!(!split.is_closed());
    assert_eq!(arena.shape_completely_contains_manifold(&mut script, polygon.id, ManifoldId(4)), Ok(false));
    script.geometry_mut().side = ManifoldWhichSide { is_any_inside: true, is_any_outside: false };
    assert_eq!(arena.shape_completely_contains_manifold(&mut script, polygon.id, ManifoldId(4)), Ok(true));
    assert_eq!(arena.shape_completely_contains_manifold(&mut script, first.id, ManifoldId(4)), Ok(true));
}

#[test]
fn coinciding_endpoints_are_found_by_the_checks() {
    // Every point is inside every pair, and so outside its negation: no two
    // complements meet.
    let mut script = Recorded::new(Script::new(vec![Some(1), Some(0), Some(0)], vec![None, None, None]));
    script.geometry_mut().point_side = PointWhichSide::Inside;
    let mut arena = ShapeArena::new(&mut script, ManifoldId(0)).unwrap();
    let first = arena.add(&mut script, Shape::whole_space(ManifoldId(1))).unwrap();
    let second = arena.add(&mut script, Shape::whole_space(ManifoldId(2))).unwrap();
    let mut existing = ShapeSet::new();
    existing.insert(first);

    // Two intervals that do not meet both stay.
    let kept = arena
        .incremental_simplify_intervals_intersection(&mut script, &existing, second, ManifoldId(0))
        .unwrap()
        .unwrap();
    let mut members = kept.to_vec();
    members.sort_by_key(|r| r.code());
    assert_eq!(members, vec![first, second]);

    // Unless the geometry takes their endpoints for one point.
    script.geometry_mut().points_coincide = true;
    let mut both = ShapeSet::new();
    both.insert(first);
    both.insert(second);
    assert_eq!(arena.endpoints_are_distinct(&mut script, &both), Ok(false));
    assert_eq!(
        arena
            .incremental_simplify_intervals_intersection(&mut script, &ShapeSet::new(), second, ManifoldId(0))
            .err(),
        Some(CutError::DuplicateEndpoint)
    );
    arena.set_checks(false);
    assert!(arena
        .incremental_simplify_intervals_intersection(&mut script, &ShapeSet::new(), second, ManifoldId(0))
        .is_ok());
}

#[test]
fn an_edge_is_split_at_the_crossing() {
    let (mut grid, mut arena) = cube(1);
    let edge = arena.roots()[0];
    let before = live(&arena);
    let cut = grid.plane(0, 1, 1);
    let crossing = match grid.split(arena.shape(edge).manifold, cut, arena.space()).unwrap() {
        ManifoldSplit::Split { intersection_manifold } => intersection_manifold,
        other => panic!("unexpected classification {other:?}"),
    };
    let split = arena.split_edge(&mut grid, edge, crossing, Some(3), Some(4)).unwrap();
    match split {
        ShapeSplit::NonFlush { inside: Some(i), outside: Some(o), intersection_shape: Some(x) } => {
            assert_eq!(x.sign, Sign::Pos);
            assert!(!before.contains(&x.id.0));
            assert_eq!(arena.shape(x.id).manifold, crossing);
            assert!(arena.shape(x.id).boundary.is_empty());
            assert_eq!(arena.get_metadata(x), Some(3));
            assert_eq!(arena.get_metadata(x.neg()), Some(4));
            for at in 0..=2 {
                let p = grid.at(&[at]);
                assert_eq!(arena.shape_contains_point(&mut grid, i.id, p), Ok(at <= 1));
                assert_eq!(arena.shape_contains_point(&mut grid, o.id, p), Ok(at >= 1));
            }
        }
        other => panic!("unexpected split {other:?}"),
    }

    // A crossing beyond the end of the edge leaves one side empty.
    let (mut grid, mut arena) = cube(1);
    let edge = arena.roots()[0];
    let cut = grid.plane(0, 5, 1);
    let mut op = SliceOperation::new(keep_inside(cut));
    let split = arena.cut_shape_uncached(&mut grid, edge, &mut op).unwrap();
    match split {
        ShapeSplit::NonFlush { inside: Some(i), outside: None, intersection_shape: Some(_) } => {
            assert_eq!(i, ShapeRef::from_id(edge));
        }
        other => panic!("unexpected split {other:?}"),
    }
}

#[test]
fn roots_are_collected_in_order() {
    let a = ShapeRef { id: ShapeId(3), sign: Sign::Pos };
    let b = ShapeRef { id: ShapeId(5), sign: Sign::Neg };
    let split = ShapeSplit::NonFlush { inside: Some(a), outside: Some(b), intersection_shape: None };
    let both = CutParams { cut: ManifoldId(0), inside: CutOp::Keep(None), outside: CutOp::Keep(Some(1)) };
    let mut roots = vec![ShapeId(1)];
    assert_eq!(hyperspeedcube::cut::collect_roots(&mut roots, split, both), Ok(()));
    assert_eq!(roots, vec![ShapeId(1), ShapeId(3), ShapeId(5)]);

    let outside_only = CutParams { cut: ManifoldId(0), inside: CutOp::Remove, outside: CutOp::Keep(None) };
    let mut roots = Vec::new();
    assert_eq!(hyperspeedcube::cut::collect_roots(&mut roots, split, outside_only), Ok(()));
    assert_eq!(roots, vec![ShapeId(5)]);

    let half = ShapeSplit::NonFlush { inside: None, outside: Some(b), intersection_shape: Some(a) };
    let inside_only = CutParams { cut: ManifoldId(0), inside: CutOp::Keep(None), outside: CutOp::Remove };
    let mut roots = vec![ShapeId(9)];
    assert_eq!(hyperspeedcube::cut::collect_roots(&mut roots, half, inside_only), Ok(()));
    assert_eq!(roots, vec![ShapeId(9)]);

    for settled in [ShapeSplit::Flush, ShapeSplit::ManifoldInside, ShapeSplit::ManifoldOutside] {
        let mut roots = vec![ShapeId(9)];
        assert_eq!(
            hyperspeedcube::cut::collect_roots(&mut roots, settled, both),
            Err(CutError::RootNotSplit)
        );
        assert_eq!(roots, vec![ShapeId(9)]);
    }
}

#[test]
fn endpoints_are_matched_with_open_ends() {
    let mut grid = Recorded::new(Grid::new(1));
    let zero = grid.at(&[0]);
    let one = grid.at(&[1]);
    let two = grid.at(&[2]);
    let points = vec![zero, one, two, one];
    assert_eq!(hyperspeedcube::construct::find_point(&mut grid, &points, one), Some(1));
    assert_eq!(hyperspeedcube::construct::find_point(&mut grid, &points, two), Some(2));
    let three = grid.at(&[3]);
    assert_eq!(hyperspeedcube::construct::find_point(&mut grid, &points, three), None);
    assert_eq!(hyperspeedcube::construct::find_point(&mut grid, &Vec::new(), zero), None);

    let mut open_ends = vec![zero, one];
    let mut unmatched = vec![two];
    let found =
        hyperspeedcube::construct::match_endpoint(&mut grid, &mut open_ends, &mut unmatched, zero);
    assert_eq!(found, Some(0));
    assert_eq!(open_ends, vec![one]);
    assert_eq!(unmatched, vec![two]);
    let found =
        hyperspeedcube::construct::match_endpoint(&mut grid, &mut open_ends, &mut unmatched, three);
    assert_eq!(found, None);
    assert_eq!(open_ends, vec![one]);
    assert_eq!(unmatched, vec![two, three]);
}

#[test]
fn a_point_on_one_element_is_still_tested_against_the_others() {
    let (inner, on, outer) = (PointWhichSide::Inside, PointWhichSide::On, PointWhichSide::Outside);
    let (mut script, arena, polygon, first, second) = scripted_polygon(vec![None; 5]);
    let point = PointId(0);

    // On the first edge and beyond the second: not in the polygon, whichever
    // edge is asked first.
    script.geometry_mut().point_sides = vec![on, on, on, outer];
    assert_eq!(arena.shape_contains_point(&mut script, polygon.id, point), Ok(false));
    assert_eq!(arena.shape_interior_contains_point(&mut script, polygon.id, point), Ok(false));
    assert_eq!(arena.shape_contains_point(&mut script, first.id, point), Ok(true));
    assert_eq!(arena.shape_contains_point(&mut script, second.id, point), Ok(false));

    // On the first edge and within the second: on the boundary.
    script.geometry_mut().point_sides = vec![on, on, on, inner];
    assert_eq!(arena.shape_contains_point(&mut script, polygon.id, point), Ok(true));
    assert_eq!(arena.shape_interior_contains_point(&mut script, polygon.id, point), Ok(false));

    // On both edges: a corner.
    script.geometry_mut().point_sides = vec![on, on, on, on];
    assert_eq!(arena.shape_contains_point(&mut script, polygon.id, point), Ok(true));

    // Within both: in the interior.
    script.geometry_mut().point_sides = vec![on, on, inner, inner];
    assert_eq!(arena.shape_contains_point(&mut script, polygon.id, point), Ok(true));
    assert_eq!(arena.shape_interior_contains_point(&mut script, polygon.id, point), Ok(true));

    // Off the plane of the polygon.
    script.geometry_mut().point_sides = vec![on, inner, inner, inner];
    assert_eq!(arena.shape_contains_point(&mut script, polygon.id, point), Ok(false));
    assert_eq!(arena.shape_interior_contains_point(&mut script, polygon.id, point), Ok(false));
}

#[test]
fn a_cloned_arena_has_the_same_shapes_and_is_its_own() {
    let (mut script, arena, polygon, first, second) = scripted_polygon(vec![None; 5]);
    let mut copy = arena.clone();
    assert_eq!(copy.roots(), arena.roots());
    assert_eq!(copy.space(), arena.space());
    for r in [polygon, first, second] {
        assert!(copy.has_shape(r.id));
        assert_eq!(copy.rank(r.id), arena.rank(r.id));
        assert_eq!(copy.shape(r.id).manifold, arena.shape(r.id).manifold);
        let mut members = copy.shape(r.id).boundary.to_vec();
        members.sort_by_key(|m| m.code());
        let mut expected = arena.shape(r.id).boundary.to_vec();
        expected.sort_by_key(|m| m.code());
        assert_eq!(members, expected);
    }

    // What is added to the copy is not added to the arena it came from.
    let added = copy.add(&mut script, Shape::whole_space(ManifoldId(4))).unwrap();
    assert!(copy.has_shape(added.id));
    assert!(!arena.has_shape(added.id));
}

#[test]
fn the_whole_of_a_manifold_is_added_without_boundary_or_tags() {
    let (mut script, mut arena, _polygon, _first, _second) = scripted_polygon(vec![None; 5]);
    let line = arena.add_whole(&mut script, ManifoldId(4)).unwrap();
    assert_eq!(line.sign, Sign::Pos);
    assert_eq!(arena.shape(line.id).manifold, ManifoldId(4));
    assert_eq!(arena.rank(line.id), 1);
    assert!(arena.shape(line.id).boundary.is_empty());
    assert_eq!(arena.get_metadata(line), None);
    assert_eq!(arena.get_metadata(line.neg()), None);

    // A manifold whose number of dimensions the geometry cannot tell is
    // not added.
    let mut failing = Recorded::new(Script::new(vec![Some(2), None], vec![None, None]));
    let mut other = ShapeArena::new(&mut failing, ManifoldId(0)).unwrap();
    assert_eq!(
        other.add_whole(&mut failing, ManifoldId(1)),
        Err(CutError::Geometry(failure("no dimension")))
    );
}
