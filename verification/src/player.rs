//! The player body and its locomotion state machine.
//!
//! The body is an axis-aligned box hull around a center point. Each fixed
//! tick (1/240 s) drains the queued commands, applies damping, jump
//! impulses and gravity, integrates the position, and then resolves
//! contacts against the obstacle set: repeatedly take the single
//! smallest-depth contact, push out of it, project the velocity onto the
//! contact tangent, and classify the surface as ground or wall, until no
//! contact remains or the iteration cap is reached. A wall contact is
//! afterwards re-confirmed by probing a copy of the body shifted one
//! world unit into the wall; the body itself never moves for the probe.
//!
//! Velocities are measured in subunits per second and saturate at
//! `VEL_LIMIT`; positions saturate at `POS_LIMIT`. Both caps lie far
//! beyond anything the physics can produce on a real level; they exist so
//! that the step's arithmetic cannot overflow whatever the inputs.

use vstd::prelude::*;
use crate::vec2::{Vec2, scaled_dir, spec_scaled_dir, COORD_LIMIT, AXIS_LIMIT, SUBUNIT};
use crate::vec2::{lemma_prim_steps, spec_prim};
use crate::math::{tdiv64, spec_tdiv, spec_clamp, clamp64};
use crate::hull::{ConvexHull, HullView, Contact, spec_axes, well_shaped, spec_overlap,
    spec_overlap_v, spec_depth_lt, spec_depth_le, depth_lt, PROJ_LIMIT};
use crate::tile_map::TileMap;

verus! {

/// Half the player's width: 12 world units.
pub const PLAYER_HALF_W: i64 = 3072;

/// Half the player's height: 24 world units.
pub const PLAYER_HALF_H: i64 = 6144;

/// Largest magnitude of the center's coordinates.
pub const POS_LIMIT: i64 = 0x100_0000_0000 - 0x1_0000;

/// Largest magnitude of a velocity component, in subunits per second.
pub const VEL_LIMIT: i64 = 0x400_0000;

/// Largest push a single contact resolution may apply.
pub const PUSH_CLAMP: i64 = 0x1_0000_0000;

#[derive(Clone, Copy, PartialEq, Eq, Structural, Debug)]
pub enum PlayerCommand {
    MoveLeft,
    MoveRight,
    Jump,
    StopJump,
    Drop,
    Slide,
}

#[derive(Clone, Copy, PartialEq, Eq, Structural, Debug)]
pub enum MoveDirection {
    Left,
    Right,
}

pub struct Player {
    collision: ConvexHull,
    center: Vec2,
    velocity: Vec2,
    move_direction: Option<MoveDirection>,
    face_direction: MoveDirection,
    ground_normal: Option<Vec2>,
    wall_normal: Option<Vec2>,
    jumping: bool,
    sliding: bool,
    commands: Vec<PlayerCommand>,
}

/// The corners of the player's box around `center`, in clockwise order.
pub open spec fn player_box_points(center: Vec2) -> Seq<Vec2> {
    seq![
        Vec2 { x: (center.x - PLAYER_HALF_W) as i64, y: (center.y - PLAYER_HALF_H) as i64 },
        Vec2 { x: (center.x + PLAYER_HALF_W) as i64, y: (center.y - PLAYER_HALF_H) as i64 },
        Vec2 { x: (center.x + PLAYER_HALF_W) as i64, y: (center.y + PLAYER_HALF_H) as i64 },
        Vec2 { x: (center.x - PLAYER_HALF_W) as i64, y: (center.y + PLAYER_HALF_H) as i64 },
    ]
}

/// The player box's deduplicated outward normals.
pub open spec fn player_box_axes() -> Seq<Vec2> {
    seq![Vec2 { x: 0, y: (-1) as i64 }, Vec2 { x: 1, y: 0 }]
}

/// An optional normal is absent or a bounded, nonzero direction.
pub open spec fn normal_ok(n: Option<Vec2>) -> bool {
    match n {
        Some(v) => v.bounded(AXIS_LIMIT as int) && !v.is_zero(),
        None => true,
    }
}

/// The player's box meets `from_points`' shape conditions and its axes
/// come out as the two unit directions.
proof fn lemma_player_box(center: Vec2)
    requires
        center.bounded(POS_LIMIT as int),
    ensures
        well_shaped(player_box_points(center)),
        spec_axes(player_box_points(center)) == player_box_axes(),
{
    let s = player_box_points(center);
    lemma_prim_steps((2 * PLAYER_HALF_W) as i64);
    lemma_prim_steps((2 * PLAYER_HALF_H) as i64);
    assert(crate::hull::spec_edge(s, 0) == (Vec2 { x: (2 * PLAYER_HALF_W) as i64, y: 0 }));
    assert(crate::hull::spec_edge(s, 1) == (Vec2 { x: 0, y: (2 * PLAYER_HALF_H) as i64 }));
    assert(crate::hull::spec_edge(s, 2) == (Vec2 { x: (-2 * PLAYER_HALF_W) as i64, y: 0 }));
    assert(crate::hull::spec_edge(s, 3) == (Vec2 { x: 0, y: (-2 * PLAYER_HALF_H) as i64 }));
    assert forall|i: int| 0 <= i < s.len() implies !(#[trigger] crate::hull::spec_edge(s, i)).is_zero()
        && spec_prim(crate::hull::spec_edge(s, i)).bounded(AXIS_LIMIT as int) by {
        if i == 0 || i == 1 || i == 2 || i == 3 {
        }
    }
    assert forall|i: int| 0 <= i < s.len() implies (#[trigger] s[i]).bounded(COORD_LIMIT as int) by {
        if i == 0 || i == 1 || i == 2 || i == 3 {
        }
    }
    let n0 = crate::hull::spec_edge_normal(s, 0);
    let n1 = crate::hull::spec_edge_normal(s, 1);
    let n2 = crate::hull::spec_edge_normal(s, 2);
    let n3 = crate::hull::spec_edge_normal(s, 3);
    assert(n0 == (Vec2 { x: 0, y: (-1) as i64 }));
    assert(n1 == (Vec2 { x: 1, y: 0 }));
    assert(n2 == (Vec2 { x: 0, y: 1 }));
    assert(n3 == (Vec2 { x: (-1) as i64, y: 0 }));
    let a1 = crate::hull::spec_axes_upto(s, 1);
    let a2 = crate::hull::spec_axes_upto(s, 2);
    let a3 = crate::hull::spec_axes_upto(s, 3);
    let a4 = crate::hull::spec_axes_upto(s, 4);
    assert(crate::hull::spec_axes_upto(s, 0) =~= Seq::<Vec2>::empty());
    assert(!crate::hull::contains_up_to_sign(Seq::empty(), n0));
    assert(a1 =~= seq![n0]);
    assert(!a1.contains(n1) && !a1.contains(n1.spec_neg())) by {
        assert(a1[0] == n0);
    }
    assert(a2 =~= seq![n0, n1]);
    assert(a2.contains(n2.spec_neg())) by {
        assert(a2[0] == n2.spec_neg());
    }
    assert(a3 == a2);
    assert(a3.contains(n3.spec_neg())) by {
        assert(a3[1] == n3.spec_neg());
    }
    assert(a4 == a3);
    assert(spec_axes(s) == a4);
    assert(a4 =~= player_box_axes());
}

impl Player {
    pub closed spec fn spec_collision(self) -> ConvexHull {
        self.collision
    }

    pub closed spec fn spec_center(self) -> Vec2 {
        self.center
    }

    pub closed spec fn spec_velocity(self) -> Vec2 {
        self.velocity
    }

    pub closed spec fn spec_move_direction(self) -> Option<MoveDirection> {
        self.move_direction
    }

    pub closed spec fn spec_face_direction(self) -> MoveDirection {
        self.face_direction
    }

    pub closed spec fn spec_ground_normal(self) -> Option<Vec2> {
        self.ground_normal
    }

    pub closed spec fn spec_wall_normal(self) -> Option<Vec2> {
        self.wall_normal
    }

    pub closed spec fn spec_jumping(self) -> bool {
        self.jumping
    }

    pub closed spec fn spec_sliding(self) -> bool {
        self.sliding
    }

    pub closed spec fn spec_commands(self) -> Seq<PlayerCommand> {
        self.commands@
    }

    /// The body is the box hull around its center, with no suppressed
    /// normals; velocity and center are bounded; ground and wall contact
    /// are never both held, a held ground normal faces mostly upward,
    /// and a held wall normal is nearly horizontal.
    pub open spec fn wf(self) -> bool {
        &&& self.spec_collision().wf()
        &&& self.spec_collision().spec_points() == player_box_points(self.spec_center())
        &&& self.spec_collision().spec_axes_of() == player_box_axes()
        &&& self.spec_collision().spec_ignored() == Seq::<Vec2>::empty()
        &&& self.spec_center().bounded(POS_LIMIT as int)
        &&& self.spec_velocity().bounded(VEL_LIMIT as int)
        &&& normal_ok(self.spec_ground_normal())
        &&& normal_ok(self.spec_wall_normal())
        &&& !(self.spec_ground_normal() is Some && self.spec_wall_normal() is Some)
        &&& (self.spec_ground_normal() is Some
            ==> spec_grounded_cond(self.spec_ground_normal()->Some_0))
        &&& (self.spec_wall_normal() is Some
            ==> spec_wall_cond(self.spec_wall_normal()->Some_0))
    }

    /// A body at rest at `position`, airborne, facing right, with an
    /// empty command queue.
    pub fn new(position: Vec2) -> (r: Player)
        requires
            position.bounded(POS_LIMIT as int),
        ensures
            r.wf(),
            r.spec_center() == position,
            r.spec_velocity() == (Vec2 { x: 0, y: 0 }),
            r.spec_ground_normal() is None,
            r.spec_wall_normal() is None,
            r.spec_jumping() == false,
            r.spec_sliding() == false,
            r.spec_move_direction() is None,
            r.spec_face_direction() == MoveDirection::Right,
            r.spec_commands() == Seq::<PlayerCommand>::empty(),
    {
        proof {
            lemma_player_box(position);
        }
        let mut pts: Vec<Vec2> = Vec::new();
        pts.push(Vec2 { x: position.x - PLAYER_HALF_W, y: position.y - PLAYER_HALF_H });
        pts.push(Vec2 { x: position.x + PLAYER_HALF_W, y: position.y - PLAYER_HALF_H });
        pts.push(Vec2 { x: position.x + PLAYER_HALF_W, y: position.y + PLAYER_HALF_H });
        pts.push(Vec2 { x: position.x - PLAYER_HALF_W, y: position.y + PLAYER_HALF_H });
        proof {
            assert(pts@ =~= player_box_points(position));
        }
        let collision = ConvexHull::from_points(pts.as_slice());
        let commands: Vec<PlayerCommand> = Vec::new();
        proof {
            assert(commands@ =~= Seq::<PlayerCommand>::empty());
        }
        Player {
            collision,
            center: position,
            velocity: Vec2 { x: 0, y: 0 },
            move_direction: None,
            face_direction: MoveDirection::Right,
            ground_normal: None,
            wall_normal: None,
            jumping: false,
            sliding: false,
            commands,
        }
    }

    /// Queue a command for the next update.
    pub fn submit_command(&mut self, command: PlayerCommand)
        requires
            old(self).wf(),
        ensures
            final(self).wf(),
            final(self).spec_commands() == old(self).spec_commands().push(command),
            final(self).spec_center() == old(self).spec_center(),
            final(self).spec_velocity() == old(self).spec_velocity(),
            final(self).spec_collision() == old(self).spec_collision(),
            final(self).spec_ground_normal() == old(self).spec_ground_normal(),
            final(self).spec_wall_normal() == old(self).spec_wall_normal(),
            final(self).spec_jumping() == old(self).spec_jumping(),
            final(self).spec_sliding() == old(self).spec_sliding(),
            final(self).spec_move_direction() == old(self).spec_move_direction(),
            final(self).spec_face_direction() == old(self).spec_face_direction(),
    {
        self.commands.push(command);
    }

    /// The center's position after translating by `amount`: each
    /// coordinate saturates at the world edge.
    pub open spec fn spec_moved_center(center: Vec2, amount: Vec2) -> Vec2 {
        Vec2 {
            x: spec_clamp(center.x + amount.x, POS_LIMIT as int) as i64,
            y: spec_clamp(center.y + amount.y, POS_LIMIT as int) as i64,
        }
    }

    /// Move the body. The displacement saturates at the world edge so the
    /// box hull always stays in bounds.
    pub fn translate(&mut self, amount: Vec2)
        requires
            old(self).wf(),
        ensures
            final(self).wf(),
            final(self).spec_center() == Self::spec_moved_center(old(self).spec_center(), amount),
            final(self).spec_velocity() == old(self).spec_velocity(),
            final(self).spec_ground_normal() == old(self).spec_ground_normal(),
            final(self).spec_wall_normal() == old(self).spec_wall_normal(),
            final(self).spec_jumping() == old(self).spec_jumping(),
            final(self).spec_sliding() == old(self).spec_sliding(),
            final(self).spec_move_direction() == old(self).spec_move_direction(),
            final(self).spec_face_direction() == old(self).spec_face_direction(),
            final(self).spec_commands() == old(self).spec_commands(),
    {
        let nx = clamp128(self.center.x as i128 + amount.x as i128);
        let ny = clamp128(self.center.y as i128 + amount.y as i128);
        let eff = Vec2 { x: nx - self.center.x, y: ny - self.center.y };
        self.translate_exact_by(eff);
    }

    /// Move the body by exactly `amount`; private, for displacements the
    /// caller has shown to stay in bounds.
    fn translate_exact_by(&mut self, amount: Vec2)
        requires
            old(self).wf(),
            amount.bounded(4 * POS_LIMIT as int),
            -POS_LIMIT as int <= old(self).spec_center().x + amount.x <= POS_LIMIT as int,
            -POS_LIMIT as int <= old(self).spec_center().y + amount.y <= POS_LIMIT as int,
        ensures
            final(self).wf(),
            final(self).spec_center()
                == old(self).spec_center().spec_add(amount),
            final(self).spec_velocity() == old(self).spec_velocity(),
            final(self).spec_ground_normal() == old(self).spec_ground_normal(),
            final(self).spec_wall_normal() == old(self).spec_wall_normal(),
            final(self).spec_jumping() == old(self).spec_jumping(),
            final(self).spec_sliding() == old(self).spec_sliding(),
            final(self).spec_move_direction() == old(self).spec_move_direction(),
            final(self).spec_face_direction() == old(self).spec_face_direction(),
            final(self).spec_commands() == old(self).spec_commands(),
    {
        self.collision.translate(amount);
        self.center = Vec2 { x: self.center.x + amount.x, y: self.center.y + amount.y };
        proof {
            assert(self.collision.spec_points() =~= player_box_points(self.center));
            assert forall|i: int| 0 <= i < self.collision.spec_points().len()
                implies (#[trigger] self.collision.spec_points()[i]).bounded(COORD_LIMIT as int) by {
                assert(player_box_points(self.center)[i] == self.collision.spec_points()[i]);
                if i == 0 || i == 1 || i == 2 || i == 3 {
                }
            }
        }
    }

    /// The body's center.
    pub fn get_center(&self) -> (r: Vec2)
        ensures
            r == self.spec_center(),
    {
        self.center
    }

    /// The body's velocity, in subunits per second.
    pub fn get_velocity(&self) -> (r: Vec2)
        ensures
            r == self.spec_velocity(),
    {
        self.velocity
    }

    /// The ground contact normal, if the body rests on a floor-like
    /// surface.
    pub fn get_ground_normal(&self) -> (r: Option<Vec2>)
        ensures
            r == self.spec_ground_normal(),
    {
        self.ground_normal
    }

    /// The wall contact normal, if the body clings to a wall-like
    /// surface.
    pub fn get_wall_normal(&self) -> (r: Option<Vec2>)
        ensures
            r == self.spec_wall_normal(),
    {
        self.wall_normal
    }

    /// The body's collision polygon.
    pub fn get_collision(&self) -> (r: &ConvexHull)
        ensures
            r == self.spec_collision(),
    {
        &self.collision
    }
}

/// Clamp a 128-bit sum into the position range.
fn clamp128(x: i128) -> (r: i64)
    ensures
        r == spec_clamp(x as int, POS_LIMIT as int),
{
    if x > POS_LIMIT as i128 {
        POS_LIMIT
    } else if x < -POS_LIMIT as i128 {
        -POS_LIMIT
    } else {
        x as i64
    }
}

/// The command-relevant slice of the player's state, folded over the
/// queued commands.
#[derive(Clone, Copy, PartialEq, Eq, Structural)]
pub struct CmdState {
    pub velocity: Vec2,
    pub move_direction: Option<MoveDirection>,
    pub face_direction: MoveDirection,
    pub jumping: bool,
    pub sliding: bool,
    pub wall_normal: Option<Vec2>,
    pub ground_normal: Option<Vec2>,
}

/// The command state a player starts each update with: movement intent
/// and slide flag reset, everything else carried over.
pub open spec fn cmd_state_init(p: Player) -> CmdState {
    CmdState {
        velocity: p.spec_velocity(),
        move_direction: None,
        face_direction: p.spec_face_direction(),
        jumping: p.spec_jumping(),
        sliding: false,
        wall_normal: p.spec_wall_normal(),
        ground_normal: p.spec_ground_normal(),
    }
}

/// The command state a player currently holds.
pub open spec fn cmd_state_of(p: Player) -> CmdState {
    CmdState {
        velocity: p.spec_velocity(),
        move_direction: p.spec_move_direction(),
        face_direction: p.spec_face_direction(),
        jumping: p.spec_jumping(),
        sliding: p.spec_sliding(),
        wall_normal: p.spec_wall_normal(),
        ground_normal: p.spec_ground_normal(),
    }
}

/// All vectors in a command state are in their ranges.
pub open spec fn cmd_state_ok(s: CmdState) -> bool {
    &&& s.velocity.bounded(VEL_LIMIT as int)
    &&& normal_ok(s.wall_normal)
    &&& normal_ok(s.ground_normal)
}

/// Add an impulse to a velocity, saturating at `VEL_LIMIT`.
pub open spec fn spec_vadd_clamped(v: Vec2, d: Vec2) -> Vec2 {
    Vec2 {
        x: spec_clamp(v.x + d.x, VEL_LIMIT as int) as i64,
        y: spec_clamp(v.y + d.y, VEL_LIMIT as int) as i64,
    }
}

fn vadd_clamped(v: Vec2, d: Vec2) -> (r: Vec2)
    requires
        v.bounded(VEL_LIMIT as int),
        d.bounded(VEL_LIMIT as int),
    ensures
        r == spec_vadd_clamped(v, d),
        r.bounded(VEL_LIMIT as int),
{
    Vec2 { x: clamp64(v.x + d.x, VEL_LIMIT), y: clamp64(v.y + d.y, VEL_LIMIT) }
}

/// A movement command: an impulse along the movement plane (the ground
/// tangent when grounded, world-x when airborne; nothing while
/// wall-sliding), and bookkeeping of the movement and facing intent.
pub open spec fn spec_move_command(s: CmdState, dir: MoveDirection) -> CmdState {
    if s.wall_normal is Some {
        s
    } else {
        let plane = match s.ground_normal {
            Some(n) => Vec2 { x: -n.y as i64, y: n.x },
            None => Vec2 { x: 1, y: 0 },
        };
        let delta = if dir == MoveDirection::Left { plane.spec_neg() } else { plane };
        let k: int = if s.ground_normal is Some { 320 } else { 240 };
        let v2 = spec_vadd_clamped(s.velocity, spec_scaled_dir(delta, k));
        let (m2, f2) = if s.move_direction is None {
            (Some(dir), dir)
        } else if s.move_direction != Some(dir) {
            (None, s.face_direction)
        } else {
            (s.move_direction, s.face_direction)
        };
        CmdState { velocity: v2, move_direction: m2, face_direction: f2, ..s }
    }
}

/// The effect of one command on the command state.
pub open spec fn spec_apply_command(s: CmdState, c: PlayerCommand) -> CmdState {
    match c {
        PlayerCommand::MoveLeft => spec_move_command(s, MoveDirection::Left),
        PlayerCommand::MoveRight => spec_move_command(s, MoveDirection::Right),
        PlayerCommand::Jump => CmdState { jumping: true, ..s },
        PlayerCommand::StopJump => CmdState { jumping: false, ..s },
        PlayerCommand::Drop => CmdState { wall_normal: None, ..s },
        PlayerCommand::Slide => CmdState { sliding: true, ..s },
    }
}

/// The queued commands applied in order.
pub open spec fn spec_fold_commands(s: CmdState, cmds: Seq<PlayerCommand>) -> CmdState
    decreases cmds.len(),
{
    if cmds.len() == 0 {
        s
    } else {
        spec_fold_commands(spec_apply_command(s, cmds[0]), cmds.skip(1))
    }
}

/// Each command keeps the state's vectors in range.
proof fn lemma_apply_command_ok(s: CmdState, c: PlayerCommand)
    requires
        cmd_state_ok(s),
    ensures
        cmd_state_ok(spec_apply_command(s, c)),
{
}

impl Player {
    /// Apply one movement command, exactly as `spec_move_command` says.
    fn move_command(&mut self, dir: MoveDirection)
        requires
            old(self).wf(),
        ensures
            final(self).wf(),
            cmd_state_of(*final(self)) == spec_move_command(cmd_state_of(*old(self)), dir),
            final(self).spec_center() == old(self).spec_center(),
            final(self).spec_collision() == old(self).spec_collision(),
            final(self).spec_commands() == old(self).spec_commands(),
    {
        if self.wall_normal.is_none() {
            let plane = match self.ground_normal {
                Some(n) => Vec2 { x: -n.y, y: n.x },
                None => Vec2 { x: 1, y: 0 },
            };
            let delta = if dir == MoveDirection::Left { plane.neg() } else { plane };
            let k: i64 = if self.ground_normal.is_some() { 320 } else { 240 };
            let imp = scaled_dir(delta, k);
            self.velocity = vadd_clamped(self.velocity, imp);
            if self.move_direction.is_none() {
                self.move_direction = Some(dir);
                self.face_direction = dir;
            } else if self.move_direction != Some(dir) {
                self.move_direction = None;
            }
        }
    }

    /// Drain the queued commands in order: movement impulses, the jump
    /// flag, wall release and slide intent; the queue ends up empty.
    fn handle_commands(&mut self)
        requires
            old(self).wf(),
        ensures
            final(self).wf(),
            cmd_state_of(*final(self))
                == spec_fold_commands(cmd_state_init(*old(self)), old(self).spec_commands()),
            final(self).spec_center() == old(self).spec_center(),
            final(self).spec_collision() == old(self).spec_collision(),
            final(self).spec_ground_normal() == old(self).spec_ground_normal(),
            final(self).spec_commands() == Seq::<PlayerCommand>::empty(),
    {
        self.move_direction = None;
        self.sliding = false;
        let ghost all = self.commands@;
        let ghost target = spec_fold_commands(cmd_state_of(*self), all);
        proof {
            assert(all.skip(0) =~= all);
            assert(cmd_state_of(*self) == cmd_state_init(*old(self)));
            assert(all == old(self).spec_commands());
        }
        let n = self.commands.len();
        let mut i: usize = 0;
        while i < n
            invariant
                self.wf(),
                n == all.len(),
                0 <= i <= n,
                self.commands@ == all,
                spec_fold_commands(cmd_state_of(*self), all.skip(i as int)) == target,
                self.spec_center() == old(self).spec_center(),
                self.spec_collision() == old(self).spec_collision(),
                self.spec_ground_normal() == old(self).spec_ground_normal(),
            decreases n - i,
        {
            let ghost pre = cmd_state_of(*self);
            let command = self.commands[i];
            proof {
                assert(all.skip(i as int)[0] == all[i as int]);
                assert(all.skip(i as int).skip(1) =~= all.skip(i as int + 1));
            }
            match command {
                PlayerCommand::MoveLeft => {
                    self.move_command(MoveDirection::Left);
                }
                PlayerCommand::MoveRight => {
                    self.move_command(MoveDirection::Right);
                }
                PlayerCommand::Jump => {
                    self.jumping = true;
                }
                PlayerCommand::StopJump => {
                    self.jumping = false;
                }
                PlayerCommand::Drop => {
                    self.wall_normal = None;
                }
                PlayerCommand::Slide => {
                    self.sliding = true;
                }
            }
            proof {
                assert(cmd_state_of(*self) == spec_apply_command(pre, all[i as int]));
            }
            i = i + 1;
        }
        self.commands.clear();
        proof {
            assert(all.skip(n as int) =~= Seq::<PlayerCommand>::empty());
        }
    }
}

/// The minimum-depth contact over the obstacle hulls after `start` (the
/// tile map's own best), scanning the first `n` hulls; a later contact
/// replaces the best only with a strictly smaller depth.
pub open spec fn spec_obstacle_scan_v(
    obstacles: Seq<ConvexHull>,
    q: HullView,
    start: Option<Contact>,
    n: int,
) -> Option<Contact>
    decreases n,
{
    if n <= 0 {
        start
    } else {
        let prev = spec_obstacle_scan_v(obstacles, q, start, n - 1);
        match spec_overlap_v(obstacles[n - 1].spec_view(), q) {
            None => prev,
            Some(c) => match prev {
                None => Some(c),
                Some(b) => {
                    if spec_depth_lt(c.amount as int, c.axis, b.amount as int, b.axis) {
                        Some(c)
                    } else {
                        Some(b)
                    }
                }
            },
        }
    }
}

/// The minimum-depth contact over the first `n` obstacle hulls.
pub open spec fn spec_obstacle_scan(
    obstacles: Seq<ConvexHull>,
    hull: ConvexHull,
    start: Option<Contact>,
    n: int,
) -> Option<Contact> {
    spec_obstacle_scan_v(obstacles, hull.spec_view(), start, n)
}

/// The single smallest-depth contact of the queried body against the
/// tile map and the extra obstacle hulls; the contact pushes the
/// obstacle side.
pub open spec fn spec_min_contact_v(
    map: TileMap,
    obstacles: Seq<ConvexHull>,
    q: HullView,
) -> Option<Contact> {
    spec_obstacle_scan_v(obstacles, q, map.spec_overlap_query_v(q), obstacles.len() as int)
}

/// The single smallest-depth contact of `hull` against the tile map and
/// the extra obstacle hulls; the contact pushes the obstacle side.
pub open spec fn spec_min_contact(
    map: TileMap,
    obstacles: Seq<ConvexHull>,
    hull: ConvexHull,
) -> Option<Contact> {
    spec_min_contact_v(map, obstacles, hull.spec_view())
}

/// Query every obstacle for its overlap with `hull` and keep the single
/// smallest-depth contact.
pub fn min_contact(map: &TileMap, obstacles: &[ConvexHull], hull: &ConvexHull) -> (r: Option<
    Contact,
>)
    requires
        map.wf(),
        hull.wf(),
        forall|i: int| 0 <= i < obstacles@.len() ==> (#[trigger] obstacles@[i]).wf(),
    ensures
        r == spec_min_contact(*map, obstacles@, *hull),
        r is Some ==> 0 < r->Some_0.amount <= 2 * PROJ_LIMIT as int,
        r is Some ==> r->Some_0.axis.bounded(AXIS_LIMIT as int) && !r->Some_0.axis.is_zero(),
{
    let mut best = map.overlap(hull);
    let mut i: usize = 0;
    while i < obstacles.len()
        invariant
            map.wf(),
            hull.wf(),
            forall|j: int| 0 <= j < obstacles@.len() ==> (#[trigger] obstacles@[j]).wf(),
            0 <= i <= obstacles@.len(),
            best == spec_obstacle_scan(obstacles@, *hull, map.spec_overlap_query(*hull), i as int),
            best is Some ==> 0 < best->Some_0.amount <= 2 * PROJ_LIMIT as int,
            best is Some ==> best->Some_0.axis.bounded(AXIS_LIMIT as int)
                && !best->Some_0.axis.is_zero(),
        decreases obstacles@.len() - i,
    {
        match obstacles[i].overlap(hull) {
            Some(c) => {
                best = match best {
                    None => Some(c),
                    Some(b) => {
                        if depth_lt(&c, &b) {
                            Some(c)
                        } else {
                            Some(b)
                        }
                    }
                };
            }
            None => {}
        }
        i = i + 1;
    }
    best
}



/// The box view of the player's body held at `center`.
pub open spec fn player_box_view(center: Vec2) -> HullView {
    HullView {
        points: player_box_points(center),
        axes: player_box_axes(),
        ignored: Seq::empty(),
    }
}

/// The contact-relevant slice of the body's state during resolution.
#[verifier::ext_equal]
pub struct StepState {
    pub center: Vec2,
    pub velocity: Vec2,
    pub ground_normal: Option<Vec2>,
    pub wall_normal: Option<Vec2>,
}

/// The resolution-relevant state a player currently holds.
pub open spec fn step_state_of(p: Player) -> StepState {
    StepState {
        center: p.spec_center(),
        velocity: p.spec_velocity(),
        ground_normal: p.spec_ground_normal(),
        wall_normal: p.spec_wall_normal(),
    }
}

/// One contact resolution applied to the state: push out, slide the
/// velocity, classify the surface.
pub open spec fn spec_resolve_once(s: StepState, c: Contact) -> StepState {
    let n = c.axis.spec_neg();
    let center2 = Player::spec_moved_center(s.center, spec_push_vec(c));
    let v2 = spec_slide_velocity(n, s.velocity);
    if spec_grounded_cond(n) {
        StepState { center: center2, velocity: v2, ground_normal: Some(n), wall_normal: None }
    } else if spec_wall_cond(n) {
        StepState { center: center2, velocity: v2, ground_normal: None, wall_normal: Some(n) }
    } else {
        StepState { center: center2, velocity: v2, ..s }
    }
}

/// The bounded resolution loop: repeatedly resolve the single
/// smallest-depth contact of the body's box, stopping with `true` once no
/// contact remains, or with `false` after one more resolution than the
/// budget, silently accepting the position reached.
pub open spec fn spec_resolution(
    map: TileMap,
    obstacles: Seq<ConvexHull>,
    s: StepState,
    budget: nat,
) -> (StepState, bool)
    decreases budget,
{
    match spec_min_contact_v(map, obstacles, player_box_view(s.center)) {
        None => (s, true),
        Some(c) => {
            let s2 = spec_resolve_once(s, c);
            if budget == 0 {
                (s2, false)
            } else {
                spec_resolution(map, obstacles, s2, (budget - 1) as nat)
            }
        }
    }
}

/// The body stands too near the world edge for the wall probe to shift
/// its box safely.
pub open spec fn spec_near_edge(center: Vec2) -> bool {
    ||| center.x > POS_LIMIT - 0x10_0000
    ||| center.x < -(POS_LIMIT - 0x10_0000)
    ||| center.y > POS_LIMIT - 0x10_0000
    ||| center.y < -(POS_LIMIT - 0x10_0000)
}

/// The wall state after the trial probe: a held wall normal survives
/// exactly when the body's box, shifted one world unit into the wall,
/// has a nearest contact that pushes straight back along that normal; at
/// the world edge the probe is skipped and the wall released.
pub open spec fn spec_wall_after_probe(
    map: TileMap,
    obstacles: Seq<ConvexHull>,
    center: Vec2,
    wall: Option<Vec2>,
) -> Option<Vec2> {
    match wall {
        None => None,
        Some(n) => {
            if spec_near_edge(center) {
                None
            } else {
                let delta = spec_scaled_dir(n, 256).spec_neg();
                let pc = Vec2 { x: (center.x + delta.x) as i64, y: (center.y + delta.y) as i64 };
                match spec_min_contact_v(map, obstacles, player_box_view(pc)) {
                    Some(c) => if c.axis == n.spec_neg() { Some(n) } else { None },
                    None => None,
                }
            }
        }
    }
}

/// The contact normal faces mostly upward: `dot(n, (0,-1)) > 0.5 * |n|`,
/// squared to stay exact.
pub open spec fn spec_grounded_cond(n: Vec2) -> bool {
    n.y < 0 && 4 * n.y * n.y > n.spec_sq()
}

/// The contact normal is nearly horizontal: `|dot(n, (1,0))| > 0.95 * |n|`,
/// squared to stay exact (0.95 * 0.95 == 361/400).
pub open spec fn spec_wall_cond(n: Vec2) -> bool {
    400 * n.x * n.x > 361 * n.spec_sq()
}

/// The push applied to the body for contact `c` (which pushes the
/// obstacle): the opposite of the contact's minimum translation vector,
/// rounded away from zero and saturated at `PUSH_CLAMP`.
pub open spec fn spec_push_vec(c: Contact) -> Vec2 {
    let sq = c.axis.spec_sq();
    Vec2 {
        x: spec_clamp(crate::math::spec_tdiv_away(-(c.amount * c.axis.x), sq), PUSH_CLAMP as int)
            as i64,
        y: spec_clamp(crate::math::spec_tdiv_away(-(c.amount * c.axis.y), sq), PUSH_CLAMP as int)
            as i64,
    }
}

/// The slide response: if the body still moves into the surface with
/// normal `n`, project the velocity onto the surface tangent, else keep
/// it.
pub open spec fn spec_slide_velocity(n: Vec2, v: Vec2) -> Vec2 {
    if n.spec_dot(v) < 0 {
        let t = n.spec_perp();
        let d = t.spec_dot(v);
        Vec2 {
            x: spec_clamp(spec_tdiv(t.x * d, n.spec_sq()), VEL_LIMIT as int) as i64,
            y: spec_clamp(spec_tdiv(t.y * d, n.spec_sq()), VEL_LIMIT as int) as i64,
        }
    } else {
        v
    }
}

impl Player {
    /// Resolve one contact: push out of penetration, slide the velocity
    /// along the surface, and classify the surface as ground (facing
    /// mostly up), wall (nearly horizontal normal), or neither.
    fn resolve_contact(&mut self, c: Contact)
        requires
            old(self).wf(),
            0 < c.amount <= 2 * PROJ_LIMIT as int,
            c.axis.bounded(AXIS_LIMIT as int),
            !c.axis.is_zero(),
        ensures
            final(self).wf(),
            ({
                let n = c.axis.spec_neg();
                &&& final(self).spec_center()
                    == Player::spec_moved_center(old(self).spec_center(), spec_push_vec(c))
                &&& final(self).spec_velocity()
                    == spec_slide_velocity(n, old(self).spec_velocity())
                &&& (spec_grounded_cond(n) ==> final(self).spec_ground_normal() == Some(n)
                    && final(self).spec_wall_normal() is None)
                &&& (!spec_grounded_cond(n) && spec_wall_cond(n)
                    ==> final(self).spec_wall_normal() == Some(n)
                        && final(self).spec_ground_normal() is None)
                &&& (!spec_grounded_cond(n) && !spec_wall_cond(n)
                    ==> final(self).spec_ground_normal() == old(self).spec_ground_normal()
                        && final(self).spec_wall_normal() == old(self).spec_wall_normal())
            }),
            final(self).spec_jumping() == old(self).spec_jumping(),
            final(self).spec_sliding() == old(self).spec_sliding(),
            final(self).spec_move_direction() == old(self).spec_move_direction(),
            final(self).spec_face_direction() == old(self).spec_face_direction(),
            final(self).spec_commands() == old(self).spec_commands(),
    {
        let n = c.axis.neg();
        proof {
            assert(
                0 <= n.x * n.x <= 0x1_0000 && 0 <= n.y * n.y <= 0x1_0000
            ) by (nonlinear_arith)
                requires n.bounded(0x100);
        }
        let sq = n.x * n.x + n.y * n.y;
        proof {
            assert(1 <= sq <= 0x2_0000) by (nonlinear_arith)
                requires n.bounded(0x100), !n.is_zero(), sq == n.x * n.x + n.y * n.y;
            assert(sq == c.axis.spec_sq()) by (nonlinear_arith)
                requires sq == n.x * n.x + n.y * n.y, n.x == -c.axis.x, n.y == -c.axis.y;
            assert(
                -0x4000_0000_0000_0000 <= c.amount * c.axis.x <= 0x4000_0000_0000_0000
                && -0x4000_0000_0000_0000 <= c.amount * c.axis.y <= 0x4000_0000_0000_0000
                && -0x4000_0000_0000_0000 <= -(c.amount * c.axis.x) <= 0x4000_0000_0000_0000
                && -0x4000_0000_0000_0000 <= -(c.amount * c.axis.y) <= 0x4000_0000_0000_0000
            ) by (nonlinear_arith)
                requires 0 < c.amount <= 0x4_0000_0000_0000, c.axis.bounded(0x100);
        }
        let px = clamp64(crate::math::tdiv_away64(-(c.amount * c.axis.x), sq), PUSH_CLAMP);
        let py = clamp64(crate::math::tdiv_away64(-(c.amount * c.axis.y), sq), PUSH_CLAMP);
        let push = Vec2 { x: px, y: py };
        proof {
            assert(push == spec_push_vec(c));
        }
        self.translate(push);

        proof {
            assert(
                -0x2000_0000_0000_0000 <= n.x * self.velocity.x <= 0x2000_0000_0000_0000
                && -0x2000_0000_0000_0000 <= n.y * self.velocity.y <= 0x2000_0000_0000_0000
            ) by (nonlinear_arith)
                requires n.bounded(0x100), self.velocity.bounded(0x400_0000);
        }
        if n.dot(self.velocity) < 0 {
            let t = n.perp();
            proof {
                assert(
                    -0x2000_0000_0000_0000 <= t.x * self.velocity.x <= 0x2000_0000_0000_0000
                    && -0x2000_0000_0000_0000 <= t.y * self.velocity.y <= 0x2000_0000_0000_0000
                ) by (nonlinear_arith)
                    requires t.bounded(0x100), self.velocity.bounded(0x400_0000);
            }
            let d = t.dot(self.velocity);
            proof {
                assert(
                    -0x1000_0000_0000 <= d <= 0x1000_0000_0000
                    ==> -0x10_0000_0000_0000 <= t.x * d <= 0x10_0000_0000_0000
                        && -0x10_0000_0000_0000 <= t.y * d <= 0x10_0000_0000_0000
                ) by (nonlinear_arith)
                    requires t.bounded(0x100);
                assert(-0x1000_0000_0000 <= d <= 0x1000_0000_0000) by (nonlinear_arith)
                    requires
                        d == t.x * self.velocity.x + t.y * self.velocity.y,
                        t.bounded(0x100),
                        self.velocity.bounded(0x400_0000);
            }
            let vx = clamp64(tdiv64(t.x * d, sq), VEL_LIMIT);
            let vy = clamp64(tdiv64(t.y * d, sq), VEL_LIMIT);
            proof {
                assert(sq == n.spec_sq()) by (nonlinear_arith)
                    requires sq == n.x * n.x + n.y * n.y;
            }
            self.velocity = Vec2 { x: vx, y: vy };
        }

        let up_dot = n.y;
        if up_dot < 0 && 4 * (n.y * n.y) > sq {
            proof {
                assert(spec_grounded_cond(n)) by (nonlinear_arith)
                    requires n.y < 0, 4 * (n.y * n.y) > sq, sq == n.spec_sq();
            }
            self.ground_normal = Some(n);
            self.wall_normal = None;
        } else {
            proof {
                assert(!spec_grounded_cond(n)) by (nonlinear_arith)
                    requires
                        !(n.y < 0 && 4 * (n.y * n.y) > sq),
                        sq == n.spec_sq();
            }
            if 400 * (n.x * n.x) > 361 * sq {
                proof {
                    assert(spec_wall_cond(n)) by (nonlinear_arith)
                        requires 400 * (n.x * n.x) > 361 * sq, sq == n.spec_sq();
                }
                self.wall_normal = Some(n);
                self.ground_normal = None;
            } else {
                proof {
                    assert(!spec_wall_cond(n)) by (nonlinear_arith)
                        requires !(400 * (n.x * n.x) > 361 * sq), sq == n.spec_sq();
                }
            }
        }
    }

    /// Resolve contacts until none remains or the iteration cap is hit;
    /// the ground contact is re-derived from scratch. Returns whether the
    /// loop converged: if it did, the body's final polygon has no contact
    /// with any obstacle.
    fn check_collisions(&mut self, map: &TileMap, obstacles: &[ConvexHull]) -> (converged: bool)
        requires
            old(self).wf(),
            map.wf(),
            forall|i: int| 0 <= i < obstacles@.len() ==> (#[trigger] obstacles@[i]).wf(),
        ensures
            final(self).wf(),
            converged ==> spec_min_contact(*map, obstacles@, final(self).spec_collision()) is None,
            ({
                let init = StepState {
                    center: old(self).spec_center(),
                    velocity: old(self).spec_velocity(),
                    ground_normal: None,
                    wall_normal: old(self).spec_wall_normal(),
                };
                let r = spec_resolution(*map, obstacles@, init, 10);
                &&& final(self).spec_center() == r.0.center
                &&& final(self).spec_velocity() == r.0.velocity
                &&& final(self).spec_ground_normal() == r.0.ground_normal
                &&& final(self).spec_wall_normal() == spec_wall_after_probe(
                    *map, obstacles@, r.0.center, r.0.wall_normal)
                &&& converged == r.1
            }),
            final(self).spec_jumping() == old(self).spec_jumping(),
            final(self).spec_sliding() == old(self).spec_sliding(),
            final(self).spec_move_direction() == old(self).spec_move_direction(),
            final(self).spec_face_direction() == old(self).spec_face_direction(),
            final(self).spec_commands() == old(self).spec_commands(),
    {
        self.ground_normal = None;
        let ghost target = spec_resolution(*map, obstacles@, step_state_of(*self), 10);
        let mut converged = false;
        let mut iterations: usize = 0;
        let mut done = false;
        while !done
            invariant
                self.wf(),
                map.wf(),
                forall|i: int| 0 <= i < obstacles@.len() ==> (#[trigger] obstacles@[i]).wf(),
                iterations <= 11,
                !done ==> iterations <= 10,
                !done ==> spec_resolution(
                    *map, obstacles@, step_state_of(*self), (10 - iterations) as nat) == target,
                done ==> step_state_of(*self) == target.0 && converged == target.1,
                converged ==> done
                    && spec_min_contact(*map, obstacles@, self.spec_collision()) is None,
                self.spec_jumping() == old(self).spec_jumping(),
                self.spec_sliding() == old(self).spec_sliding(),
                self.spec_move_direction() == old(self).spec_move_direction(),
                self.spec_face_direction() == old(self).spec_face_direction(),
                self.spec_commands() == old(self).spec_commands(),
            decreases 12 - iterations, (if done { 0int } else { 1int }),
        {
            let ghost pre = step_state_of(*self);
            let ghost budget = (10 - iterations) as nat;
            proof {
                assert(self.collision.spec_view() =~= player_box_view(self.center));
            }
            match min_contact(map, obstacles, &self.collision) {
                None => {
                    proof {
                        assert(spec_min_contact_v(
                            *map, obstacles@, player_box_view(pre.center)) is None);
                        assert(spec_resolution(*map, obstacles@, pre, budget) == (pre, true));
                    }
                    converged = true;
                    done = true;
                }
                Some(c) => {
                    proof {
                        assert(Some(c) == spec_min_contact_v(
                            *map, obstacles@, player_box_view(pre.center)));
                    }
                    self.resolve_contact(c);
                    proof {
                        assert(step_state_of(*self) =~= spec_resolve_once(pre, c));
                    }
                    iterations = iterations + 1;
                    if iterations > 10 {
                        proof {
                            assert(budget == 0);
                            assert(spec_resolution(*map, obstacles@, pre, budget)
                                == (spec_resolve_once(pre, c), false));
                        }
                        done = true;
                    } else {
                        proof {
                            assert(budget >= 1);
                            assert(spec_resolution(*map, obstacles@, pre, budget)
                                == spec_resolution(*map, obstacles@, spec_resolve_once(pre, c),
                                    (budget - 1) as nat));
                        }
                    }
                }
            }
        }
        self.check_wall_climb(map, obstacles);
        converged
    }

    /// Re-confirm a wall contact: probe with a copy of the body's box
    /// shifted one world unit into the wall; the wall state survives only
    /// if the nearest contact of the probe pushes straight back along the
    /// wall normal. The body itself is untouched.
    fn check_wall_climb(&mut self, map: &TileMap, obstacles: &[ConvexHull])
        requires
            old(self).wf(),
            map.wf(),
            forall|i: int| 0 <= i < obstacles@.len() ==> (#[trigger] obstacles@[i]).wf(),
        ensures
            final(self).wf(),
            final(self).spec_wall_normal() == spec_wall_after_probe(
                *map,
                obstacles@,
                old(self).spec_center(),
                old(self).spec_wall_normal(),
            ),
            final(self).spec_center() == old(self).spec_center(),
            final(self).spec_collision() == old(self).spec_collision(),
            final(self).spec_velocity() == old(self).spec_velocity(),
            final(self).spec_ground_normal() == old(self).spec_ground_normal(),
            final(self).spec_jumping() == old(self).spec_jumping(),
            final(self).spec_sliding() == old(self).spec_sliding(),
            final(self).spec_move_direction() == old(self).spec_move_direction(),
            final(self).spec_face_direction() == old(self).spec_face_direction(),
            final(self).spec_commands() == old(self).spec_commands(),
    {
        let wall = self.wall_normal;
        match wall {
            Some(n) => {
                let near_edge = self.center.x > POS_LIMIT - 0x10_0000
                    || self.center.x < -(POS_LIMIT - 0x10_0000)
                    || self.center.y > POS_LIMIT - 0x10_0000
                    || self.center.y < -(POS_LIMIT - 0x10_0000);
                proof {
                    assert(near_edge == spec_near_edge(self.spec_center()));
                }
                if near_edge {
                    self.wall_normal = None;
                } else {
                    let step = scaled_dir(n, SUBUNIT);
                    let delta = step.neg();
                    let probe_center = Vec2 {
                        x: self.center.x + delta.x,
                        y: self.center.y + delta.y,
                    };
                    proof {
                        lemma_player_box(probe_center);
                    }
                    let mut pts: Vec<Vec2> = Vec::new();
                    pts.push(Vec2 {
                        x: probe_center.x - PLAYER_HALF_W,
                        y: probe_center.y - PLAYER_HALF_H,
                    });
                    pts.push(Vec2 {
                        x: probe_center.x + PLAYER_HALF_W,
                        y: probe_center.y - PLAYER_HALF_H,
                    });
                    pts.push(Vec2 {
                        x: probe_center.x + PLAYER_HALF_W,
                        y: probe_center.y + PLAYER_HALF_H,
                    });
                    pts.push(Vec2 {
                        x: probe_center.x - PLAYER_HALF_W,
                        y: probe_center.y + PLAYER_HALF_H,
                    });
                    proof {
                        assert(pts@ =~= player_box_points(probe_center));
                    }
                    let probe_hull = ConvexHull::from_points(pts.as_slice());
                    proof {
                        assert(probe_hull.spec_view() =~= player_box_view(probe_center));
                        assert(delta == spec_scaled_dir(n, 256).spec_neg());
                    }
                    let probe = min_contact(map, obstacles, &probe_hull);
                    proof {
                        assert(probe == spec_min_contact_v(
                            *map, obstacles@, player_box_view(probe_center)));
                    }
                    match probe {
                        Some(c) => {
                            if !(c.axis == n.neg()) {
                                self.wall_normal = None;
                            }
                        }
                        None => {
                            self.wall_normal = None;
                        }
                    }
                }
            }
            None => {}
        }
    }
}


/// The velocity after air drag and the extra wall-slide drag: per tick,
/// horizontal velocity loses 1/240 of itself and vertical velocity
/// 1/480; descending along a nearly vertical wall additionally loses
/// 9/240 (2/240 while slide is held).
pub open spec fn spec_damped(v: Vec2, wall: Option<Vec2>, sliding: bool) -> Vec2 {
    let vx = v.x - spec_tdiv(v.x as int, 240);
    let vy0 = v.y - spec_tdiv(v.y as int, 480);
    let vy = match wall {
        Some(n) => {
            if spec_wall_cond(n) && vy0 > 0 {
                vy0 - spec_tdiv(vy0 * (if sliding { 2int } else { 9int }), 240)
            } else {
                vy0
            }
        }
        None => vy0,
    };
    Vec2 { x: vx as i64, y: vy as i64 }
}

/// The velocity, jump flag and wall state after a held jump is applied:
/// grounded jumps push 250 units per second along the ground normal,
/// wall jumps along the wall normal tilted upward; either releases the
/// wall. The flag is sticky: it stays held, applying again on every
/// sub-step with a usable contact, until a stop-jump command clears it.
pub open spec fn spec_jump_applied(
    v: Vec2,
    jumping: bool,
    ground: Option<Vec2>,
    wall: Option<Vec2>,
) -> (Vec2, bool, Option<Vec2>) {
    if jumping && ground is Some {
        (spec_vadd_clamped(v, spec_scaled_dir(ground->Some_0, 64000)), jumping, None)
    } else if jumping && wall is Some {
        let u = spec_scaled_dir(wall->Some_0, 1024);
        let m = Vec2 { x: u.x, y: (u.y - 1536) as i64 };
        (spec_vadd_clamped(v, spec_scaled_dir(m, 64000)), jumping, None)
    } else {
        (v, jumping, wall)
    }
}

/// The velocity after gravity: falling bodies gain 426 subunits per
/// second each tick, rising bodies 213 (the floaty-jump asymmetry).
pub open spec fn spec_with_gravity(v: Vec2) -> Vec2 {
    if v.y > 0 {
        spec_vadd_clamped(v, Vec2 { x: 0, y: 426 })
    } else {
        spec_vadd_clamped(v, Vec2 { x: 0, y: 213 })
    }
}

impl Player {
    /// One fixed 1/240 s step: drain the command queue, damp and
    /// accelerate the velocity, integrate the position, then resolve
    /// contacts and re-derive the ground/wall state. Returns whether the
    /// contact resolution converged; if it did, the body's final polygon
    /// overlaps no obstacle. Ground and wall contact are never both held
    /// afterwards.
    pub fn update(&mut self, map: &TileMap, obstacles: &[ConvexHull]) -> (converged: bool)
        requires
            old(self).wf(),
            map.wf(),
            forall|i: int| 0 <= i < obstacles@.len() ==> (#[trigger] obstacles@[i]).wf(),
        ensures
            final(self).wf(),
            !(final(self).spec_ground_normal() is Some
                && final(self).spec_wall_normal() is Some),
            final(self).spec_commands() == Seq::<PlayerCommand>::empty(),
            converged ==> spec_min_contact(*map, obstacles@, final(self).spec_collision())
                is None,
            ({
                let cs = spec_fold_commands(
                    cmd_state_init(*old(self)),
                    old(self).spec_commands(),
                );
                let jw = spec_jump_applied(
                    spec_damped(cs.velocity, cs.wall_normal, cs.sliding),
                    cs.jumping,
                    cs.ground_normal,
                    cs.wall_normal,
                );
                let v3 = spec_with_gravity(jw.0);
                let amount = Vec2 {
                    x: spec_tdiv(v3.x as int, 240) as i64,
                    y: spec_tdiv(v3.y as int, 240) as i64,
                };
                let init = StepState {
                    center: Player::spec_moved_center(old(self).spec_center(), amount),
                    velocity: v3,
                    ground_normal: None,
                    wall_normal: jw.2,
                };
                let r = spec_resolution(*map, obstacles@, init, 10);
                &&& final(self).spec_center() == r.0.center
                &&& final(self).spec_velocity() == r.0.velocity
                &&& final(self).spec_ground_normal() == r.0.ground_normal
                &&& final(self).spec_wall_normal() == spec_wall_after_probe(
                    *map, obstacles@, r.0.center, r.0.wall_normal)
                &&& converged == r.1
                &&& final(self).spec_jumping() == jw.1
                &&& final(self).spec_sliding() == cs.sliding
                &&& final(self).spec_move_direction() == cs.move_direction
                &&& final(self).spec_face_direction() == cs.face_direction
            }),
    {
        let ghost cs = spec_fold_commands(cmd_state_init(*old(self)), old(self).spec_commands());
        self.handle_commands();
        proof {
            assert(cmd_state_of(*self) == cs);
        }

        let v = self.velocity;
        let vx = v.x - tdiv64(v.x, 240);
        let mut vy = v.y - tdiv64(v.y, 480);
        match self.wall_normal {
            Some(n) => {
                proof {
                    assert(
                        0 <= n.x * n.x <= 0x1_0000 && 0 <= n.y * n.y <= 0x1_0000
                    ) by (nonlinear_arith)
                        requires n.bounded(0x100);
                }
                let wall_like = 400 * (n.x * n.x) > 361 * (n.x * n.x + n.y * n.y);
                proof {
                    assert(wall_like == spec_wall_cond(n)) by (nonlinear_arith)
                        requires
                            wall_like == (400 * (n.x * n.x) > 361 * (n.x * n.x + n.y * n.y));
                }
                if wall_like {
                    if vy > 0 {
                        let factor: i64 = if self.sliding { 2 } else { 9 };
                        vy = vy - tdiv64(vy * factor, 240);
                    }
                }
            }
            None => {}
        }
        self.velocity = Vec2 { x: vx, y: vy };
        let ghost v1 = spec_damped(cs.velocity, cs.wall_normal, cs.sliding);
        let ghost jw = spec_jump_applied(v1, cs.jumping, cs.ground_normal, cs.wall_normal);
        proof {
            assert(self.velocity == v1);
        }

        if self.jumping {
            match self.ground_normal {
                Some(n) => {
                    let imp = scaled_dir(n, 64000);
                    self.velocity = vadd_clamped(self.velocity, imp);
                    self.wall_normal = None;
                }
                None => {
                    match self.wall_normal {
                        Some(n) => {
                            let u = scaled_dir(n, 1024);
                            let m = Vec2 { x: u.x, y: u.y - 1536 };
                            let imp = scaled_dir(m, 64000);
                            self.velocity = vadd_clamped(self.velocity, imp);
                            self.wall_normal = None;
                        }
                        None => {}
                    }
                }
            }
        }
        proof {
            assert(self.velocity == jw.0);
            assert(self.jumping == jw.1);
            assert(self.wall_normal == jw.2);
        }

        if self.velocity.y > 0 {
            self.velocity = vadd_clamped(self.velocity, Vec2 { x: 0, y: 426 });
        } else {
            self.velocity = vadd_clamped(self.velocity, Vec2 { x: 0, y: 213 });
        }
        let ghost v3 = spec_with_gravity(jw.0);
        proof {
            assert(self.velocity == v3);
        }

        let amount = Vec2 { x: tdiv64(self.velocity.x, 240), y: tdiv64(self.velocity.y, 240) };
        self.translate(amount);
        proof {
            assert(self.spec_center()
                == Player::spec_moved_center(old(self).spec_center(), amount));
        }

        self.check_collisions(map, obstacles)
    }
}

impl TileMap {
    /// A new player standing at the map's start cell, centered in it.
    pub fn spawn_player(&self) -> (p: Player)
        requires
            self.wf(),
        ensures
            p.wf(),
            p.spec_center() == (Vec2 {
                x: (self.spec_player_start().x * self.spec_tile_size()
                    + self.spec_tile_size() / 2) as i64,
                y: (self.spec_player_start().y * self.spec_tile_size()
                    + self.spec_tile_size() / 2) as i64,
            }),
            p.spec_velocity() == (Vec2 { x: 0, y: 0 }),
            p.spec_ground_normal() is None,
            p.spec_wall_normal() is None,
            p.spec_commands() == Seq::<PlayerCommand>::empty(),
    {
        let size = self.get_tile_size();
        let start = self.get_player_start();
        proof {
            assert(
                -0x80_0000_0000 <= start.x * size <= 0x80_0000_0000
                && -0x80_0000_0000 <= start.y * size <= 0x80_0000_0000
            ) by (nonlinear_arith)
                requires start.bounded(0x8_0000), 0 < size <= 0x10_0000;
        }
        let pos = Vec2 { x: start.x * size + size / 2, y: start.y * size + size / 2 };
        Player::new(pos)
    }
}


/// An obstacle hull's reported contact has a nonzero axis and a
/// non-negative depth.
proof fn lemma_obstacle_contact_shape(o: ConvexHull, hull: ConvexHull)
    requires
        o.wf(),
        hull.wf(),
        spec_overlap(o, hull) is Some,
    ensures
        spec_overlap(o, hull)->Some_0.axis.spec_sq() > 0,
        spec_overlap(o, hull)->Some_0.amount >= 0,
        spec_overlap(o, hull)->Some_0.axis.bounded(AXIS_LIMIT as int),
{
    crate::hull::lemma_overlap_minimal(o, hull);
    let c = spec_overlap(o, hull)->Some_0;
    let w = choose|w: int| 0 <= w < crate::hull::axes_all(o, hull).len()
        && !(#[trigger] crate::hull::suppressed_at(o, hull, w))
        && !crate::hull::gap_at(o, hull, w)
        && c == crate::hull::cand_at(o, hull, w);
    crate::hull::lemma_cand_shape(o, hull, w);
}

/// The minimum-depth law of the whole obstacle query: a reported contact
/// is the tile map's or one obstacle hull's, and neither the map nor any
/// obstacle offers a strictly shallower one.
pub proof fn lemma_min_contact_minimal(
    map: TileMap,
    obstacles: Seq<ConvexHull>,
    hull: ConvexHull,
)
    requires
        map.wf(),
        hull.wf(),
        forall|i: int| 0 <= i < obstacles.len() ==> (#[trigger] obstacles[i]).wf(),
    ensures
        match spec_min_contact(map, obstacles, hull) {
            Some(c) => {
                &&& (map.spec_overlap_query(hull) == Some(c) || exists|i: int|
                    0 <= i < obstacles.len()
                    && #[trigger] spec_overlap(obstacles[i], hull) == Some(c))
                &&& (map.spec_overlap_query(hull) is Some ==> spec_depth_le(
                    c.amount as int,
                    c.axis,
                    map.spec_overlap_query(hull)->Some_0.amount as int,
                    map.spec_overlap_query(hull)->Some_0.axis,
                ))
                &&& forall|i: int| 0 <= i < obstacles.len()
                    && (#[trigger] spec_overlap(obstacles[i], hull)) is Some
                    ==> spec_depth_le(
                        c.amount as int,
                        c.axis,
                        spec_overlap(obstacles[i], hull)->Some_0.amount as int,
                        spec_overlap(obstacles[i], hull)->Some_0.axis,
                    )
            },
            None => {
                &&& map.spec_overlap_query(hull) is None
                &&& forall|i: int| 0 <= i < obstacles.len()
                    ==> (#[trigger] spec_overlap(obstacles[i], hull)) is None
            },
        },
{
    lemma_obstacle_scan_minimal(map, obstacles, hull, obstacles.len() as int);
}

/// The scan over the first `n` obstacle hulls keeps a shallowest
/// contact, starting from the tile map's own best.
proof fn lemma_obstacle_scan_minimal(
    map: TileMap,
    obstacles: Seq<ConvexHull>,
    hull: ConvexHull,
    n: int,
)
    requires
        map.wf(),
        hull.wf(),
        forall|i: int| 0 <= i < obstacles.len() ==> (#[trigger] obstacles[i]).wf(),
        0 <= n <= obstacles.len(),
    ensures
        ({
            let start = map.spec_overlap_query(hull);
            match spec_obstacle_scan(obstacles, hull, start, n) {
                Some(c) => {
                    &&& (start == Some(c) || exists|i: int| 0 <= i < n
                        && #[trigger] spec_overlap(obstacles[i], hull) == Some(c))
                    &&& (start is Some ==> spec_depth_le(
                        c.amount as int,
                        c.axis,
                        start->Some_0.amount as int,
                        start->Some_0.axis,
                    ))
                    &&& forall|i: int| 0 <= i < n
                        && (#[trigger] spec_overlap(obstacles[i], hull)) is Some
                        ==> spec_depth_le(
                            c.amount as int,
                            c.axis,
                            spec_overlap(obstacles[i], hull)->Some_0.amount as int,
                            spec_overlap(obstacles[i], hull)->Some_0.axis,
                        )
                    &&& c.axis.spec_sq() > 0
                    &&& c.amount >= 0
                    &&& (start is Some ==> start->Some_0.axis.spec_sq() > 0
                        && start->Some_0.amount >= 0)
                },
                None => {
                    &&& start is None
                    &&& forall|i: int| 0 <= i < n
                        ==> (#[trigger] spec_overlap(obstacles[i], hull)) is None
                },
            }
        }),
    decreases n,
{
    let start = map.spec_overlap_query(hull);
    if n == 0 {
        if start is Some {
            crate::tile_map::lemma_map_overlap_minimal(map, hull);
            let c = start->Some_0;
            let w = choose|w: int| 0 <= w < map.spec_entries().len()
                && #[trigger] map.spec_tile_contact(hull, w) == Some(c);
            lemma_tile_contact_sq(map, hull, w);
        }
    } else {
        lemma_obstacle_scan_minimal(map, obstacles, hull, n - 1);
        let prev = spec_obstacle_scan(obstacles, hull, start, n - 1);
        match spec_overlap(obstacles[n - 1], hull) {
            None => {}
            Some(cnew) => {
                lemma_obstacle_contact_shape(obstacles[n - 1], hull);
                match prev {
                    None => {}
                    Some(b) => {
                        if spec_depth_lt(cnew.amount as int, cnew.axis, b.amount as int, b.axis) {
                            if start is Some {
                                lemma_depth_chain(
                                    cnew.amount as int, cnew.axis,
                                    b.amount as int, b.axis,
                                    start->Some_0.amount as int, start->Some_0.axis,
                                );
                            }
                            assert forall|i: int| 0 <= i < n
                                && (#[trigger] spec_overlap(obstacles[i], hull)) is Some
                                implies spec_depth_le(
                                    cnew.amount as int,
                                    cnew.axis,
                                    spec_overlap(obstacles[i], hull)->Some_0.amount as int,
                                    spec_overlap(obstacles[i], hull)->Some_0.axis,
                                ) by {
                                if i < n - 1 {
                                    lemma_obstacle_contact_shape(obstacles[i], hull);
                                    lemma_depth_chain(
                                        cnew.amount as int, cnew.axis,
                                        b.amount as int, b.axis,
                                        spec_overlap(obstacles[i], hull)->Some_0.amount as int,
                                        spec_overlap(obstacles[i], hull)->Some_0.axis,
                                    );
                                }
                            }
                        }
                    }
                }
            }
        }
    }
}

/// A tile contact of the map query has a nonzero axis and non-negative
/// depth; restated here for the scan proof.
proof fn lemma_tile_contact_sq(map: TileMap, hull: ConvexHull, i: int)
    requires
        map.wf(),
        hull.wf(),
        0 <= i < map.spec_entries().len(),
        map.spec_tile_contact(hull, i) is Some,
    ensures
        map.spec_tile_contact(hull, i)->Some_0.axis.spec_sq() > 0,
        map.spec_tile_contact(hull, i)->Some_0.amount >= 0,
{
    let h = map.spec_entries()[i].hull;
    assert(h.wf());
    lemma_obstacle_contact_shape(hull, h);
    let c = spec_overlap(hull, h)->Some_0;
    let nc = crate::tile_map::neg_contact(c);
    assert(nc.axis.x == -c.axis.x && nc.axis.y == -c.axis.y);
    assert(nc.axis.spec_sq() == c.axis.spec_sq()) by (nonlinear_arith)
        requires nc.axis.x == -c.axis.x, nc.axis.y == -c.axis.y;
}

/// Depth comparison chains across a strictly shallower middle contact.
proof fn lemma_depth_chain(
    a1: int, x1: Vec2,
    a2: int, x2: Vec2,
    a3: int, x3: Vec2,
)
    requires
        x1.spec_sq() > 0,
        x2.spec_sq() > 0,
        x3.spec_sq() > 0,
        a1 >= 0,
        a2 >= 0,
        a3 >= 0,
        spec_depth_lt(a1, x1, a2, x2),
        spec_depth_le(a2, x2, a3, x3),
    ensures
        spec_depth_le(a1, x1, a3, x3),
{
    let p1 = a1 * a1;
    let p2 = a2 * a2;
    let p3 = a3 * a3;
    assert(p1 * x3.spec_sq() <= p3 * x1.spec_sq()) by (nonlinear_arith)
        requires
            p1 * x2.spec_sq() < p2 * x1.spec_sq(),
            p2 * x3.spec_sq() <= p3 * x2.spec_sq(),
            x1.spec_sq() > 0,
            x2.spec_sq() > 0,
            x3.spec_sq() > 0,
            p1 >= 0,
            p2 >= 0,
            p3 >= 0;
}


} // verus!
