//! What a ray can hit: spheres, and lists of them.
use crate::material::Material;
use crate::ray::Ray;
use crate::scalar::Scalar;
use crate::vec3::{lemma_dot_negated, Color, Point3, Vec3};
use vstd::prelude::*;

verus! {

/// Where a ray met a surface.
#[derive(Clone, Copy, Debug)]
pub struct HitRecord {
    pub p: Point3,
    pub normal: Vec3,
    pub t: Scalar,
    pub front_face: bool,
    pub material: Material,
}

impl HitRecord {
    /// The ray comes from outside when it runs against the outward
    /// normal.
    pub open spec fn faces_front(direction: Vec3, outward_normal: Vec3) -> bool {
        direction.dot_spec(outward_normal).lt_spec(Scalar { bits: 0 })
    }

    /// The record for a hit at `p`: its normal is the outward normal for a
    /// ray that comes from outside, and the opposite one otherwise.
    pub open spec fn oriented(
        p: Point3,
        outward_normal: Vec3,
        t: Scalar,
        direction: Vec3,
        material: Material,
    ) -> HitRecord {
        let front_face = HitRecord::faces_front(direction, outward_normal);
        HitRecord {
            p,
            normal: if front_face {
                outward_normal
            } else {
                outward_normal.negated_spec()
            },
            t,
            front_face,
            material,
        }
    }

    pub fn new(p: Point3, outward_normal: Vec3, t: Scalar, r: &Ray, material: Material) -> (rec:
        HitRecord)
        ensures
            rec == HitRecord::oriented(p, outward_normal, t, r.direction, material),
    {
        let front_face: bool = r.direction.dot(outward_normal).lt(Scalar::zero());
        let normal: Vec3 = if front_face {
            outward_normal
        } else {
            outward_normal.negated()
        };
        HitRecord { p, normal, t, front_face, material }
    }

    /// A record at the origin, at distance zero, of a black diffuse
    /// surface seen from outside.
    pub fn empty() -> (rec: HitRecord)
        ensures
            rec.p == (Vec3 { x: Scalar { bits: 0 }, y: Scalar { bits: 0 }, z: Scalar { bits: 0 } }),
            rec.normal == rec.p,
            rec.t.bits == 0,
            rec.front_face,
            rec.material == (Material::Lambertian { albedo: rec.p }),
    {
        let p: Point3 = Point3::zero();
        let normal: Vec3 = Vec3::zero();
        let t: Scalar = Scalar::zero();
        let front_face: bool = true;
        HitRecord {
            p,
            normal,
            t,
            front_face,
            material: Material::Lambertian {
                albedo: Color::new(Scalar::zero(), Scalar::zero(), Scalar::zero()),
            },
        }
    }
}

/// `t_min <= t <= t_max`
pub open spec fn within(t: Scalar, t_min: Scalar, t_max: Scalar) -> bool {
    t_min.le_spec(t) && t.le_spec(t_max)
}

/// Something a ray can be tested against.
pub trait Hittable {
    /// The nearest hit of `r` with a distance in `[t_min, t_max]`, if any.
    spec fn hit_spec(&self, r: &Ray, t_min: Scalar, t_max: Scalar) -> Option<HitRecord>;

    /// Every hit lies in the interval asked for.
    proof fn hit_is_valid(&self, r: &Ray, t_min: Scalar, t_max: Scalar)
        ensures
            self.hit_spec(r, t_min, t_max) matches Some(rec) ==> within(rec.t, t_min, t_max),
    ;

    fn hit(&self, r: &Ray, t_min: Scalar, t_max: Scalar) -> (res: Option<HitRecord>)
        ensures
            res == self.hit_spec(r, t_min, t_max),
    ;
}

/// A sphere of one material.
#[derive(Debug, Clone, Copy)]
pub struct Sphere {
    center: Point3,
    radius: Scalar,
    material: Material,
}

impl Sphere {
    pub closed spec fn center_spec(self) -> Point3 {
        self.center
    }

    pub closed spec fn radius_spec(self) -> Scalar {
        self.radius
    }

    pub closed spec fn material_spec(self) -> Material {
        self.material
    }

    /// A sphere has a radius above zero.
    pub open spec fn well_formed(self) -> bool {
        self.radius_spec().positive()
    }

    /// `half_b * half_b - a * c` of the equation `|O + tD - C|^2 = r^2`.
    pub open spec fn discriminant(self, r: Ray) -> Scalar {
        let oc = r.origin.minus_spec(self.center_spec());
        let a = r.direction.length_squared_spec();
        let half_b = oc.dot_spec(r.direction);
        let c = oc.length_squared_spec().sub_spec(self.radius_spec().mul_spec(self.radius_spec()));
        half_b.mul_spec(half_b).sub_spec(a.mul_spec(c))
    }

    /// `(-half_b - sqrt(discriminant)) / a`
    pub open spec fn near_root(self, r: Ray) -> Scalar {
        let oc = r.origin.minus_spec(self.center_spec());
        let a = r.direction.length_squared_spec();
        let half_b = oc.dot_spec(r.direction);
        half_b.neg_spec().sub_spec(self.discriminant(r).sqrt_spec()).div_spec(a)
    }

    /// `(-half_b + sqrt(discriminant)) / a`
    pub open spec fn far_root(self, r: Ray) -> Scalar {
        let oc = r.origin.minus_spec(self.center_spec());
        let a = r.direction.length_squared_spec();
        let half_b = oc.dot_spec(r.direction);
        half_b.neg_spec().add_spec(self.discriminant(r).sqrt_spec()).div_spec(a)
    }

    /// The distance at which the ray meets the sphere: none where the
    /// discriminant is negative; else the near root if it lies in the
    /// interval; else the far root if that does; else none.
    pub open spec fn chosen_root(self, r: Ray, t_min: Scalar, t_max: Scalar) -> Option<Scalar> {
        if self.discriminant(r).lt_spec(Scalar { bits: 0 }) {
            None
        } else if within(self.near_root(r), t_min, t_max) {
            Some(self.near_root(r))
        } else if within(self.far_root(r), t_min, t_max) {
            Some(self.far_root(r))
        } else {
            None
        }
    }

    /// The record of a hit at distance `t`, or none where the point that
    /// was hit has no distance from the center, so that there is no normal.
    pub open spec fn record_at(self, r: Ray, t: Scalar) -> Option<HitRecord> {
        let p = r.at_spec(t);
        let offset = p.minus_spec(self.center_spec());
        if !offset.normalizable() {
            None
        } else {
            Some(HitRecord::oriented(p, offset.unit_spec(), t, r.direction, self.material_spec()))
        }
    }

    pub fn new(center: Point3, radius: Scalar, material: Material) -> (s: Sphere)
        requires
            radius.positive(),
        ensures
            s.center_spec() == center,
            s.radius_spec() == radius,
            s.material_spec() == material,
            s.well_formed(),
    {
        Sphere { center, radius, material }
    }

    /// The sphere, or nothing for a radius that is not above zero.
    pub fn try_new(center: Point3, radius: Scalar, material: Material) -> (s: Option<Sphere>)
        ensures
            s is Some <==> radius.positive(),
            s matches Some(sphere) ==> sphere.center_spec() == center && sphere.radius_spec()
                == radius && sphere.material_spec() == material && sphere.well_formed(),
    {
        if Scalar::zero().lt(radius) {
            Some(Sphere::new(center, radius, material))
        } else {
            None
        }
    }

    pub fn center(&self) -> (c: Point3)
        ensures
            c == self.center_spec(),
    {
        self.center
    }

    pub fn radius(&self) -> (r: Scalar)
        ensures
            r == self.radius_spec(),
    {
        self.radius
    }

    pub fn material(&self) -> (m: Material)
        ensures
            m == self.material_spec(),
    {
        self.material
    }

    fn record(&self, r: &Ray, t: Scalar) -> (res: Option<HitRecord>)
        ensures
            res == self.record_at(*r, t),
    {
        let p: Point3 = r.at(t);
        let offset: Vec3 = p.minus(self.center);
        if !offset.is_normalizable() {
            return None;
        }
        let outward_normal: Vec3 = offset.unit_vector();
        Some(HitRecord::new(p, outward_normal, t, r, self.material))
    }
}

impl Hittable for Sphere {
    open spec fn hit_spec(&self, r: &Ray, t_min: Scalar, t_max: Scalar) -> Option<HitRecord> {
        match self.chosen_root(*r, t_min, t_max) {
            None => None,
            Some(t) => self.record_at(*r, t),
        }
    }

    proof fn hit_is_valid(&self, r: &Ray, t_min: Scalar, t_max: Scalar) {
    }

    fn hit(&self, r: &Ray, t_min: Scalar, t_max: Scalar) -> (res: Option<HitRecord>) {
        let oc: Vec3 = r.origin.minus(self.center);
        let a: Scalar = r.direction.length_squared();
        let half_b: Scalar = oc.dot(r.direction);
        let c: Scalar = oc.length_squared().sub(self.radius.mul(self.radius));
        let discriminant: Scalar = half_b.mul(half_b).sub(a.mul(c));
        if discriminant.lt(Scalar::zero()) {
            return None;
        }
        let sqrd: Scalar = discriminant.sqrt();
        let r_n: Scalar = half_b.neg().sub(sqrd).div(a);
        let r_p: Scalar = half_b.neg().add(sqrd).div(a);
        if r_n.ge(t_min) && r_n.le(t_max) {
            self.record(r, r_n)
        } else if r_p.ge(t_min) && r_p.le(t_max) {
            self.record(r, r_p)
        } else {
            None
        }
    }
}

/// The hit kept after one more primitive was tested: a new hit replaces
/// the best so far only where it is strictly nearer.
pub open spec fn keep_nearer(best: Option<HitRecord>, found: Option<HitRecord>) -> Option<
    HitRecord,
> {
    match (best, found) {
        (_, None) => best,
        (None, Some(h)) => Some(h),
        (Some(b), Some(h)) => if h.t.lt_spec(b.t) {
            Some(h)
        } else {
            Some(b)
        },
    }
}

/// The upper end of the interval still searched: the distance of the best
/// hit so far, or `t_max` while there is none.
pub open spec fn search_limit(best: Option<HitRecord>, t_max: Scalar) -> Scalar {
    match best {
        Some(b) => b.t,
        None => t_max,
    }
}

/// The nearest hit among `objects`, tested in order, each against the
/// interval that ends at the best distance found before it.
pub open spec fn nearest_hit<T: Hittable>(
    objects: Seq<T>,
    r: Ray,
    t_min: Scalar,
    t_max: Scalar,
) -> Option<HitRecord>
    decreases objects.len(),
{
    if objects.len() == 0 {
        None
    } else {
        let best = nearest_hit(objects.drop_last(), r, t_min, t_max);
        keep_nearer(best, objects.last().hit_spec(&r, t_min, search_limit(best, t_max)))
    }
}

/// The normal of a record runs against the ray: `dot(direction, normal)`
/// is at most zero, wherever the dot product with the outward normal is a
/// number.
pub proof fn lemma_normal_opposes_ray(
    p: Point3,
    outward_normal: Vec3,
    t: Scalar,
    direction: Vec3,
    material: Material,
)
    requires
        !direction.dot_spec(outward_normal).nan(),
    ensures
        direction.dot_spec(
            HitRecord::oriented(p, outward_normal, t, direction, material).normal,
        ).le_spec(Scalar { bits: 0 }),
{
    lemma_dot_negated(direction, outward_normal);
}

/// A sphere whose equation has a negative discriminant for a ray is not
/// hit by it, whatever the interval.
pub proof fn lemma_negative_discriminant_misses(
    sphere: Sphere,
    r: Ray,
    t_min: Scalar,
    t_max: Scalar,
)
    requires
        sphere.discriminant(r).lt_spec(Scalar { bits: 0 }),
    ensures
        sphere.hit_spec(&r, t_min, t_max) is None,
{
}

/// A sphere that is hit in `[t_min, t_max]` at a distance of at most
/// `limit` is hit in the very same way in `[t_min, limit]`, where `limit`
/// is at most `t_max`.
pub proof fn lemma_hit_in_shorter_interval(
    sphere: Sphere,
    r: Ray,
    t_min: Scalar,
    t_max: Scalar,
    limit: Scalar,
)
    requires
        limit.le_spec(t_max),
        sphere.hit_spec(&r, t_min, t_max) matches Some(h) && h.t.le_spec(limit),
    ensures
        sphere.hit_spec(&r, t_min, limit) == sphere.hit_spec(&r, t_min, t_max),
{
}

/// The list returns a nearest hit: none of its spheres is hit, in the
/// interval asked for, at a smaller distance than the one returned.
pub proof fn lemma_nearest_hit_is_nearest(
    objects: Seq<Sphere>,
    r: Ray,
    t_min: Scalar,
    t_max: Scalar,
    i: int,
)
    requires
        0 <= i < objects.len(),
    ensures
        objects[i].hit_spec(&r, t_min, t_max) matches Some(h) ==> (nearest_hit(
            objects,
            r,
            t_min,
            t_max,
        ) matches Some(best) && best.t.le_spec(h.t)),
    decreases objects.len(),
{
    let before = objects.drop_last();
    let best = nearest_hit(before, r, t_min, t_max);
    let limit = search_limit(best, t_max);
    let last = objects.last();
    lemma_nearest_hit_valid(before, r, t_min, t_max);
    last.hit_is_valid(&r, t_min, limit);
    if i < objects.len() - 1 {
        lemma_nearest_hit_is_nearest(before, r, t_min, t_max, i);
        assert(before[i] == objects[i]);
    } else {
        match last.hit_spec(&r, t_min, t_max) {
            None => {},
            Some(h) => {
                last.hit_is_valid(&r, t_min, t_max);
                if h.t.le_spec(limit) {
                    lemma_hit_in_shorter_interval(last, r, t_min, t_max, limit);
                }
            },
        }
    }
}

/// The end of the interval still searched never moves outwards as more
/// primitives are tested.
pub proof fn lemma_search_limit_shrinks<T: Hittable>(
    objects: Seq<T>,
    later: T,
    r: Ray,
    t_min: Scalar,
    t_max: Scalar,
)
    requires
        !t_max.nan(),
    ensures
        search_limit(nearest_hit(objects.push(later), r, t_min, t_max), t_max).le_spec(
            search_limit(nearest_hit(objects, r, t_min, t_max), t_max),
        ),
{
    assert(objects.push(later).drop_last() == objects);
    assert(objects.push(later).last() == later);
    let best = nearest_hit(objects, r, t_min, t_max);
    lemma_nearest_hit_valid(objects, r, t_min, t_max);
    later.hit_is_valid(&r, t_min, search_limit(best, t_max));
}

/// A primitive added later does not take the place of the best hit unless
/// its own hit is strictly nearer.
pub proof fn lemma_later_tie_loses<T: Hittable>(
    objects: Seq<T>,
    later: T,
    r: Ray,
    t_min: Scalar,
    t_max: Scalar,
    best: HitRecord,
)
    requires
        nearest_hit(objects, r, t_min, t_max) == Some(best),
        later.hit_spec(&r, t_min, best.t) matches Some(h) ==> !h.t.lt_spec(best.t),
    ensures
        nearest_hit(objects.push(later), r, t_min, t_max) == Some(best),
{
    assert(objects.push(later).drop_last() == objects);
    assert(objects.push(later).last() == later);
}

/// Of two spheres in the same place, the one added first is the one hit.
pub proof fn lemma_first_of_coincident_wins(
    first: Sphere,
    second: Sphere,
    r: Ray,
    t_min: Scalar,
    t_max: Scalar,
)
    requires
        first.center_spec() == second.center_spec(),
        first.radius_spec() == second.radius_spec(),
        first.hit_spec(&r, t_min, t_max) is Some,
    ensures
        nearest_hit(seq![first, second], r, t_min, t_max) == first.hit_spec(&r, t_min, t_max),
{
    let list = seq![first, second];
    let one = seq![first];
    assert(list.drop_last() == one);
    assert(one.drop_last() == Seq::<Sphere>::empty());
    assert(one.last() == first && list.last() == second);
    let best = first.hit_spec(&r, t_min, t_max)->Some_0;
    assert(nearest_hit(Seq::<Sphere>::empty(), r, t_min, t_max) is None);
    assert(nearest_hit(one, r, t_min, t_max) == Some(best));
    assert(second.discriminant(r) == first.discriminant(r));
    assert(second.near_root(r) == first.near_root(r));
    assert(second.far_root(r) == first.far_root(r));
}

/// The primitives of a scene, in the order in which they were added.
pub struct HittableList<T: Hittable> {
    objects: Vec<T>,
}

impl<T: Hittable> View for HittableList<T> {
    type V = Seq<T>;

    closed spec fn view(&self) -> Seq<T> {
        self.objects@
    }
}

impl<T: Hittable> HittableList<T> {
    pub fn new() -> (list: HittableList<T>)
        ensures
            list@ == Seq::<T>::empty(),
    {
        let objects: Vec<T> = Vec::new();
        HittableList { objects }
    }

    pub fn add(&mut self, object: T)
        ensures
            final(self)@ == old(self)@.push(object),
    {
        self.objects.push(object)
    }

    pub fn len(&self) -> (n: usize)
        ensures
            n == self@.len(),
    {
        self.objects.len()
    }
}

/// The nearest hit lies in the interval.
pub proof fn lemma_nearest_hit_valid<T: Hittable>(
    objects: Seq<T>,
    r: Ray,
    t_min: Scalar,
    t_max: Scalar,
)
    ensures
        nearest_hit(objects, r, t_min, t_max) matches Some(rec) ==> within(rec.t, t_min, t_max),
    decreases objects.len(),
{
    if objects.len() > 0 {
        lemma_nearest_hit_valid(objects.drop_last(), r, t_min, t_max);
        let best = nearest_hit(objects.drop_last(), r, t_min, t_max);
        objects.last().hit_is_valid(&r, t_min, search_limit(best, t_max));
    }
}

impl<T: Hittable> Hittable for HittableList<T> {
    open spec fn hit_spec(&self, r: &Ray, t_min: Scalar, t_max: Scalar) -> Option<HitRecord> {
        nearest_hit(self@, *r, t_min, t_max)
    }

    proof fn hit_is_valid(&self, r: &Ray, t_min: Scalar, t_max: Scalar) {
        lemma_nearest_hit_valid(self@, *r, t_min, t_max);
    }

    fn hit(&self, r: &Ray, t_min: Scalar, t_max: Scalar) -> (res: Option<HitRecord>) {
        let mut tmp_rec: HitRecord = HitRecord::empty();
        let mut hit_anything: bool = false;
        let mut closest_so_far: Scalar = t_max;
        let mut i: usize = 0;
        let ghost mut best: Option<HitRecord> = None;
        while i < self.objects.len()
            invariant
                i <= self.objects.len(),
                best == nearest_hit(self@.take(i as int), *r, t_min, t_max),
                hit_anything == best.is_some(),
                hit_anything ==> best == Some(tmp_rec),
                closest_so_far == search_limit(best, t_max),
            decreases self.objects.len() - i,
        {
            proof {
                assert(self@.take(i + 1).drop_last() == self@.take(i as int));
                assert(self@.take(i + 1).last() == self@[i as int]);
            }
            match self.objects[i].hit(r, t_min, closest_so_far) {
                Some(rec) => {
                    if !hit_anything || rec.t.lt(closest_so_far) {
                        tmp_rec = rec;
                        closest_so_far = rec.t;
                        hit_anything = true;
                        proof {
                            best = Some(rec);
                        }
                    }
                },
                None => {},
            }
            i = i + 1;
        }
        proof {
            assert(self@.take(i as int) == self@);
        }
        if hit_anything {
            Some(tmp_rec)
        } else {
            None
        }
    }
}

} // verus!
