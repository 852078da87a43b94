//! Ships and bullets: what they are, how they look, and when they touch.
use crate::controller::ControllerState;
use crate::double::{is_rounded_square, Double, Vec2};
use crate::double::FRACTIONS;
use crate::packets::ObjectInfo;
use vstd::arithmetic::power2::{
    lemma2_to64_rest, lemma_pow2_adds, lemma_pow2_pos, lemma_pow2_unfold, pow2,
};
use vstd::prelude::*;

verus! {

// The numbers of the rules, as the bits of the doubles that stand for them.
/// 0.0
pub const ZERO: u64 = 0;

/// 1.0, the right and upper edge of the field
pub const UPPER_EDGE: u64 = 0x3ff0_0000_0000_0000;

/// -1.0, the left and lower edge of the field
pub const LOWER_EDGE: u64 = 0xbff0_0000_0000_0000;

/// 0.05, the size of a ship
pub const PLAYER_SCALE: u64 = 0x3fa9_9999_9999_999a;

/// 0.07, the radius of a ship: its size times 1.4.
///
/// This is smaller than the circle that bounds the ship. The leeway makes near misses feel
/// fair.
pub const PLAYER_RADIUS: u64 = 0x3fb1_eb85_1eb8_51eb;

/// The square of a ship's radius
pub const PLAYER_RADIUS_SQUARED: u64 = 0x3f74_1205_bc01_a36d;

/// 0.6, the speed that a ship is held to
pub const PLAYER_MAX_SPEED: u64 = 0x3fe3_3333_3333_3333;

/// 0.2, the time from which a ship that has never fired may fire: the least time between two
/// shots, counted from time zero
pub const FIRST_SHOT: u64 = 0x3fc9_9999_9999_999a;

/// 0.02, the size of a bullet
pub const BULLET_SCALE: u64 = 0x3f94_7ae1_47ae_147b;

/// 0.04, the radius of a bullet: twice its size
pub const BULLET_RADIUS: u64 = 0x3fa4_7ae1_47ae_147b;

/// The square of a bullet's radius
pub const BULLET_RADIUS_SQUARED: u64 = 0x3f5a_36e2_eb1c_432d;

/// A team, by its number.
#[derive(Clone, Copy, Debug, PartialEq, Eq, Structural)]
pub struct Team(pub u8);

/// What ships and bullets have in common.
#[derive(Clone, Copy, Debug, PartialEq, Eq, Structural)]
pub struct GameEntity {
    pub entity_id: u32,
    pub owning_team: Team,
    pub position: Vec2,
    pub velocity: Vec2,
    /// In radians.
    pub rotation: Double,
}

/// A ship and the controls of its player.
#[derive(Clone, Copy, Debug, PartialEq, Eq, Structural)]
pub struct Player {
    pub controller: ControllerState,
    /// The time after which the ship may fire again: that of its last shot, and the least
    /// time between two shots.
    pub fire_ready: Double,
    pub acceleration: Vec2,
    pub shared: GameEntity,
}

/// A bullet in flight.
#[derive(Clone, Copy, Debug, PartialEq, Eq, Structural)]
pub struct Bullet {
    pub shared: GameEntity,
}

/// A ship or a bullet, by its place in the list of live ships or of bullets.
#[derive(Clone, Copy, Debug, PartialEq, Eq, Structural)]
pub enum EntityId {
    Player(usize),
    Bullet(usize),
}

/// The outline of a drawn object.
#[derive(Clone, Copy, Debug, PartialEq, Eq, Structural)]
pub enum GamePoly {
    Player,
    Bullet,
    Asteroid(usize),
}

/// The colour of a drawn object.
#[derive(Clone, Copy, Debug, PartialEq, Eq, Structural)]
pub enum GameColor {
    Team(u8),
    Black,
    White,
}

/// How an object is drawn.
#[derive(Clone, Copy, Debug, PartialEq, Eq, Structural)]
pub struct Drawable {
    /// Whether it is drawn again on the far side while it crosses an edge.
    pub should_wrap: bool,
    pub color: GameColor,
    pub poly: GamePoly,
    pub scale: Double,
}

impl GameEntity {
    /// Where the entity is and how it moves. The server turns nothing on its own.
    pub open spec fn spec_info(self) -> ObjectInfo {
        ObjectInfo {
            position: (self.position.x, self.position.y),
            velocity: (self.velocity.x, self.velocity.y),
            rotation: self.rotation,
            rotation_speed: Double { bits: ZERO },
        }
    }

    /// Where the entity is and how it moves, as it is told to the clients.
    pub fn info(&self) -> (info: ObjectInfo)
        ensures
            info == self.spec_info(),
    {
        ObjectInfo {
            position: (self.position.x, self.position.y),
            velocity: (self.velocity.x, self.velocity.y),
            rotation: self.rotation,
            rotation_speed: Double { bits: ZERO },
        }
    }
}

/// Whether an entity with the given squared radius touches another one of a different team at
/// the given squared distance.
pub open spec fn touches(
    a: GameEntity,
    radius_squared: Double,
    b: GameEntity,
    distance_squared: Double,
) -> bool {
    &&& a.owning_team != b.owning_team
    &&& distance_squared.below(radius_squared)
}

/// What takes part in collisions.
pub trait Entity: Sized {
    spec fn spec_entity(&self) -> GameEntity;

    /// The entity with its common part replaced.
    spec fn spec_with_entity(self, entity: GameEntity) -> Self;

    spec fn spec_drawable(&self) -> Drawable;

    spec fn spec_radius(&self) -> Double;

    spec fn spec_radius_squared(&self) -> Double;

    spec fn spec_max_speed() -> Option<Double>;

    spec fn spec_acceleration(&self) -> Option<Vec2>;

    /// How the entity is drawn.
    fn drawable(&self) -> (drawable: Drawable)
        ensures
            drawable == self.spec_drawable(),
    ;

    /// The radius of the entity.
    fn radius(&self) -> (radius: Double)
        ensures
            radius == self.spec_radius(),
    ;

    /// The square of the radius, rounded to a double.
    fn radius_squared(&self) -> (radius_squared: Double)
        ensures
            radius_squared == self.spec_radius_squared(),
    ;

    /// Whether the entity touches another one, whose squared distance is given. Entities of
    /// one team never touch.
    fn collides_with(&self, other: &GameEntity, distance_squared: Double) -> (hit: bool)
        ensures
            hit == touches(
                self.spec_entity(),
                self.spec_radius_squared(),
                *other,
                distance_squared,
            ),
    {
        self.entity().owning_team != other.owning_team && distance_squared.less(
            self.radius_squared(),
        )
    }

    /// What the entity has in common with the others.
    fn entity(&self) -> (entity: &GameEntity)
        ensures
            *entity == self.spec_entity(),
    ;

    /// Access to what the entity has in common with the others.
    fn entity_mut(&mut self) -> (entity: &mut GameEntity)
        ensures
            *entity == old(self).spec_entity(),
            *final(self) == old(self).spec_with_entity(*final(entity)),
    ;

    /// The speed that entities of this kind are held to, if they are.
    fn max_speed() -> (max: Option<Double>)
        ensures
            max == Self::spec_max_speed(),
    ;

    /// The acceleration of the entity, if its kind has one.
    fn acceleration(&self) -> (acceleration: Option<Vec2>)
        ensures
            acceleration == self.spec_acceleration(),
    ;
}

impl Entity for Player {
    open spec fn spec_entity(&self) -> GameEntity {
        self.shared
    }

    open spec fn spec_with_entity(self, entity: GameEntity) -> Self {
        Player { shared: entity, ..self }
    }

    open spec fn spec_drawable(&self) -> Drawable {
        Drawable {
            should_wrap: true,
            color: GameColor::Team(self.shared.owning_team.0),
            poly: GamePoly::Player,
            scale: Double { bits: PLAYER_SCALE },
        }
    }

    open spec fn spec_radius(&self) -> Double {
        Double { bits: PLAYER_RADIUS }
    }

    open spec fn spec_radius_squared(&self) -> Double {
        Double { bits: PLAYER_RADIUS_SQUARED }
    }

    open spec fn spec_max_speed() -> Option<Double> {
        Some(Double { bits: PLAYER_MAX_SPEED })
    }

    open spec fn spec_acceleration(&self) -> Option<Vec2> {
        Some(self.acceleration)
    }

    fn drawable(&self) -> (drawable: Drawable) {
        Drawable {
            should_wrap: true,
            color: GameColor::Team(self.shared.owning_team.0),
            poly: GamePoly::Player,
            scale: Double { bits: PLAYER_SCALE },
        }
    }

    fn radius(&self) -> (radius: Double) {
        Double { bits: PLAYER_RADIUS }
    }

    fn radius_squared(&self) -> (radius_squared: Double) {
        Double { bits: PLAYER_RADIUS_SQUARED }
    }

    fn entity(&self) -> (entity: &GameEntity) {
        &self.shared
    }

    fn entity_mut(&mut self) -> (entity: &mut GameEntity) {
        &mut self.shared
    }

    fn max_speed() -> (max: Option<Double>) {
        Some(Double { bits: PLAYER_MAX_SPEED })
    }

    fn acceleration(&self) -> (acceleration: Option<Vec2>) {
        Some(self.acceleration)
    }
}

impl Entity for Bullet {
    open spec fn spec_entity(&self) -> GameEntity {
        self.shared
    }

    open spec fn spec_with_entity(self, entity: GameEntity) -> Self {
        Bullet { shared: entity }
    }

    open spec fn spec_drawable(&self) -> Drawable {
        Drawable {
            should_wrap: false,
            color: GameColor::Team(self.shared.owning_team.0),
            poly: GamePoly::Bullet,
            scale: Double { bits: BULLET_SCALE },
        }
    }

    open spec fn spec_radius(&self) -> Double {
        Double { bits: BULLET_RADIUS }
    }

    open spec fn spec_radius_squared(&self) -> Double {
        Double { bits: BULLET_RADIUS_SQUARED }
    }

    open spec fn spec_max_speed() -> Option<Double> {
        None
    }

    open spec fn spec_acceleration(&self) -> Option<Vec2> {
        None
    }

    fn drawable(&self) -> (drawable: Drawable) {
        Drawable {
            should_wrap: false,
            color: GameColor::Team(self.shared.owning_team.0),
            poly: GamePoly::Bullet,
            scale: Double { bits: BULLET_SCALE },
        }
    }

    fn radius(&self) -> (radius: Double) {
        Double { bits: BULLET_RADIUS }
    }

    fn radius_squared(&self) -> (radius_squared: Double) {
        Double { bits: BULLET_RADIUS_SQUARED }
    }

    fn entity(&self) -> (entity: &GameEntity) {
        &self.shared
    }

    fn entity_mut(&mut self) -> (entity: &mut GameEntity) {
        &mut self.shared
    }

    fn max_speed() -> (max: Option<Double>) {
        None
    }

    fn acceleration(&self) -> (acceleration: Option<Vec2>) {
        None
    }
}

/// Whether a point is off the field.
pub open spec fn off_field(p: Vec2) -> bool {
    ||| p.x.below(Double { bits: LOWER_EDGE })
    ||| (Double { bits: UPPER_EDGE }).below(p.x)
    ||| p.y.below(Double { bits: LOWER_EDGE })
    ||| (Double { bits: UPPER_EDGE }).below(p.y)
}

impl Bullet {
    /// Whether the bullet has left the field.
    pub fn should_die(&self) -> (dies: bool)
        ensures
            dies == off_field(self.shared.position),
    {
        let p = self.shared.position;
        let lower = Double { bits: LOWER_EDGE };
        let upper = Double { bits: UPPER_EDGE };
        p.x.less(lower) || upper.less(p.x) || p.y.less(lower) || upper.less(p.y)
    }
}

/// A ship of the given team as it is before its first spawn.
pub open spec fn spec_player(team: Team, id: u32) -> Player {
    Player {
        controller: ControllerState::idle(),
        fire_ready: Double { bits: FIRST_SHOT },
        acceleration: Vec2::origin(),
        shared: GameEntity {
            entity_id: id,
            owning_team: team,
            position: Vec2::origin(),
            velocity: Vec2::origin(),
            rotation: Double { bits: ZERO },
        },
    }
}

/// Makes a ship of the given team, before its first spawn.
pub fn player(team: Team, id: u32) -> (player: Player)
    ensures
        player == spec_player(team, id),
{
    Player {
        controller: ControllerState {
            up: false,
            down: false,
            left: false,
            right: false,
            fire: false,
        },
        fire_ready: Double { bits: FIRST_SHOT },
        acceleration: Vec2::origin(),
        shared: GameEntity {
            entity_id: id,
            owning_team: team,
            position: Vec2::origin(),
            velocity: Vec2::origin(),
            rotation: Double { bits: ZERO },
        },
    }
}

/// A bullet of a ship's team at the ship's muzzle.
pub open spec fn spec_bullet(id: u32, player: GameEntity, position: Vec2, velocity: Vec2) -> Bullet {
    Bullet {
        shared: GameEntity {
            entity_id: id,
            owning_team: player.owning_team,
            position,
            velocity,
            rotation: Double { bits: ZERO },
        },
    }
}

/// Makes a bullet of a ship's team, which starts at the ship's muzzle with the muzzle velocity.
pub fn bullet(id: u32, player: &GameEntity, position: Vec2, velocity: Vec2) -> (bullet: Bullet)
    ensures
        bullet == spec_bullet(id, *player, position, velocity),
{
    Bullet {
        shared: GameEntity {
            entity_id: id,
            owning_team: player.owning_team,
            position,
            velocity,
            rotation: Double { bits: ZERO },
        },
    }
}

/// Two ships touch each other or neither touches the other.
pub proof fn ships_touch_mutually(a: Player, b: Player, distance_squared: Double)
    ensures
        touches(a.shared, a.spec_radius_squared(), b.shared, distance_squared) == touches(
            b.shared,
            b.spec_radius_squared(),
            a.shared,
            distance_squared,
        ),
{
}

/// Entities of one team never touch, however close they are.
pub proof fn teammates_never_touch(
    a: GameEntity,
    radius_squared: Double,
    b: GameEntity,
    distance_squared: Double,
)
    requires
        a.owning_team == b.owning_team,
    ensures
        !touches(a, radius_squared, b, distance_squared),
{
}

/// The square of the radius of the circle that bounds a ship of the given size. The two rear
/// corners of its outline, at (1, -1) and (-1, -1) in units of the size, are the farthest from
/// its centre.
pub open spec fn bounding_circle_squared(size: int) -> int {
    2 * (size * size)
}

/// The radius of a ship is smaller than that of the circle that bounds it, and so is the square
/// that collisions are decided by. All numbers are multiples of the smallest positive double,
/// which is two to the power of -1074.
pub proof fn ship_radius_is_inside_its_bounding_circle(ship: Player)
    ensures
        ({
            let radius = ship.spec_radius().value();
            let size = ship.spec_drawable().scale.value();
            &&& 0 < radius
            &&& radius * radius < bounding_circle_squared(size)
            &&& ship.spec_radius_squared().value() * pow2(1074) < bounding_circle_squared(size)
        }),
{
    let unit = FRACTIONS as int;
    let p = pow2(1017) as int;
    let a = unit + PLAYER_RADIUS % FRACTIONS;
    let b = unit + PLAYER_SCALE % FRACTIONS;
    let c = unit + PLAYER_RADIUS_SQUARED % FRACTIONS;
    let radius = ship.spec_radius().value();
    let size = ship.spec_drawable().scale.value();
    let squared = ship.spec_radius_squared().value();
    lemma_pow2_pos(1017);
    lemma_pow2_unfold(1018);
    assert(radius == a * (2 * p));
    assert(size == b * p);
    assert(squared == c * pow2(1014));
    assert(2 * (a * a) < b * b) by (nonlinear_arith)
        requires
            a == 0x11_eb85_1eb8_51eb,
            b == 0x19_9999_9999_999a,
    ;
    assert(radius * radius == 4 * (a * a) * (p * p)) by (nonlinear_arith)
        requires
            radius == a * (2 * p),
    ;
    assert(2 * (size * size) == 2 * (b * b) * (p * p)) by (nonlinear_arith)
        requires
            size == b * p,
    ;
    assert(0 < p * p) by (nonlinear_arith)
        requires
            0 < p,
    ;
    assert(4 * (a * a) * (p * p) < 2 * (b * b) * (p * p)) by (nonlinear_arith)
        requires
            2 * (a * a) < b * b,
            0 < p * p,
    ;
    assert(0 < a * (2 * p)) by (nonlinear_arith)
        requires
            0 < a,
            0 < p,
    ;
    let q = pow2(54) as int;
    lemma_pow2_adds(1014, 1074);
    lemma_pow2_adds(1017, 1017);
    lemma_pow2_adds(54, 2034);
    lemma2_to64_rest();
    assert(c * q < 2 * (b * b)) by (nonlinear_arith)
        requires
            q == 0x40_0000_0000_0000,
            c == 0x14_1205_bc01_a36d,
            b == 0x19_9999_9999_999a,
    ;
    assert(squared * pow2(1074) == (c * q) * (p * p)) by (nonlinear_arith)
        requires
            squared == c * pow2(1014),
            pow2(1014) * pow2(1074) == q * (p * p),
    ;
    assert((c * q) * (p * p) < 2 * (b * b) * (p * p)) by (nonlinear_arith)
        requires
            c * q < 2 * (b * b),
            0 < p * p,
    ;
}

proof fn lemma_rounded_square(a: int, e: nat, c: int, f: nat)
    requires
        2 * e + 52 == f + 1074,
        -0x10_0000_0000_0000 <= 2 * (c * 0x10_0000_0000_0000 - a * a) <= 0x10_0000_0000_0000,
    ensures
        ({
            let exact = (a * pow2(e)) * (a * pow2(e));
            let rounded = (c * pow2(f)) * pow2(1074);
            let unit = pow2(f) * pow2(1074);
            -unit <= 2 * (rounded - exact) <= unit
        }),
{
    let p = (pow2(e) * pow2(e)) as int;
    let k = 0x10_0000_0000_0000int;
    let exact = (a * pow2(e)) * (a * pow2(e));
    let rounded = (c * pow2(f)) * pow2(1074);
    let unit = pow2(f) * pow2(1074);
    lemma2_to64_rest();
    lemma_pow2_adds(f, 1074);
    lemma_pow2_adds(e, e);
    lemma_pow2_adds(52, 2 * e);
    lemma_pow2_pos(2 * e);
    assert(unit == k * p);
    assert(exact == (a * a) * p) by (nonlinear_arith)
        requires
            exact == (a * pow2(e)) * (a * pow2(e)),
            p == pow2(e) * pow2(e),
    ;
    assert(rounded == (c * k) * p) by (nonlinear_arith)
        requires
            rounded == (c * pow2(f)) * pow2(1074),
            pow2(f) * pow2(1074) == k * p,
    ;
    let off = 2 * (c * k - a * a);
    assert(2 * (rounded - exact) == off * p) by (nonlinear_arith)
        requires
            rounded == (c * k) * p,
            exact == (a * a) * p,
            off == 2 * (c * k - a * a),
    ;
    assert(-(k * p) <= off * p <= k * p) by (nonlinear_arith)
        requires
            -k <= off <= k,
            p > 0,
    ;
}

/// What collisions of ships are decided by is the square of a ship's radius, rounded to a double.
pub proof fn ship_radius_is_squared(ship: Player)
    ensures
        is_rounded_square(ship.spec_radius(), ship.spec_radius_squared()),
{
    let a = 0x11_eb85_1eb8_51ebint;
    let c = 0x14_1205_bc01_a36dint;
    assert(ship.spec_radius().value() == a * pow2(1018));
    assert(ship.spec_radius_squared().value() == c * pow2(1014));
    assert(ship.spec_radius_squared().last_place() == pow2(1014));
    assert(-0x10_0000_0000_0000 <= 2 * (c * 0x10_0000_0000_0000 - a * a) <= 0x10_0000_0000_0000)
        by (nonlinear_arith)
        requires
            a == 0x11_eb85_1eb8_51eb,
            c == 0x14_1205_bc01_a36d,
    ;
    lemma_rounded_square(a, 1018, c, 1014);
}

/// What collisions of bullets would be decided by is the square of a bullet's radius, rounded to
/// a double.
pub proof fn bullet_radius_is_squared(bullet: Bullet)
    ensures
        is_rounded_square(bullet.spec_radius(), bullet.spec_radius_squared()),
{
    let a = 0x14_7ae1_47ae_147bint;
    let c = 0x1a_36e2_eb1c_432dint;
    assert(bullet.spec_radius().value() == a * pow2(1017));
    assert(bullet.spec_radius_squared().value() == c * pow2(1012));
    assert(bullet.spec_radius_squared().last_place() == pow2(1012));
    assert(-0x10_0000_0000_0000 <= 2 * (c * 0x10_0000_0000_0000 - a * a) <= 0x10_0000_0000_0000)
        by (nonlinear_arith)
        requires
            a == 0x14_7ae1_47ae_147b,
            c == 0x1a_36e2_eb1c_432d,
    ;
    lemma_rounded_square(a, 1017, c, 1012);
}

/// A bullet is of its ship's team, and nothing else of the ship matters to it: neither how fast
/// the ship is nor which one it is. It is never turned.
pub proof fn only_the_team_marks_a_bullet(
    id: u32,
    one: GameEntity,
    other: GameEntity,
    position: Vec2,
    velocity: Vec2,
)
    requires
        one.owning_team == other.owning_team,
    ensures
        spec_bullet(id, one, position, velocity) == spec_bullet(id, other, position, velocity),
        spec_bullet(id, one, position, velocity).shared.rotation == (Double { bits: ZERO }),
{
}

/// The border of the field still belongs to it: a point is on the field where both coordinates
/// are numbers from -1 to 1, the ends included.
pub proof fn the_border_is_on_the_field(p: Vec2)
    requires
        !p.x.is_nan(),
        !p.y.is_nan(),
    ensures
        !off_field(p) <==> {
            let (low, high) = (
                (Double { bits: LOWER_EDGE }).value(),
                (Double { bits: UPPER_EDGE }).value(),
            );
            low <= p.x.value() <= high && low <= p.y.value() <= high
        },
{
}

} // verus!
