//! One sim state and its save form: 37 bytes, little-endian. The whole sim is
//! a function of this state and the input, so the state is the save.

use vstd::prelude::*;
use crate::codec;
use crate::codec::{signed_word, PackError};
use crate::game::map::{RealmId, Warp};
use crate::game::player;
use crate::game::player::{
    Avatar, Facing, Motion, Player, BIKE_TOP_PX_PER_STEP, RUN_PX_PER_STEP, TURN_STEPS,
    WALK_PX_PER_STEP,
};
use crate::single;
use crate::single::{bits_of, floor_bits, EIGHT, ONE, SIXTEEN};
use crate::types;
use crate::types::Input;

verus! {

/// Where the camera looks, in world pixels, and the zoom: the bits of three
/// singles.
#[derive(Clone, Copy, Debug, PartialEq, Eq, Structural)]
pub struct Camera {
    pub x: u32,
    pub y: u32,
    pub zoom: u32,
}

/// The warp choreography: the door opens (16 frames), the player walks in,
/// the screen fades out (12), the realm switches, the screen fades in (12),
/// the player walks off an arrival door and it closes. Levitating skips all
/// of it.
#[derive(Clone, Copy, Debug, PartialEq, Eq)]
pub enum Transition {
    DoorOpen { x: i32, y: i32, t: u8 },
    /// Player mid-walk onto the open door; the warp fires on arrival.
    DoorWait { x: i32, y: i32 },
    FadeOut { warp: Warp, t: u8, door: bool },
    FadeIn { t: u8, door: bool },
    /// Walking off the arrival tile; doors close behind (`door_xy`).
    ExitWalk { door_xy: Option<(i32, i32)> },
    DoorClose { x: i32, y: i32, t: u8 },
}

/// Four animation steps of four frames.
pub const DOOR_T: u8 = 16;

pub const FADE_T: u8 = 12;

/// Entries of the start menu.
pub const MENU_LEN: u8 = 5;

/// Everything that moves is in here, so a renderer keeps two of them and
/// interpolates.
#[derive(Clone, Copy, Debug, PartialEq, Eq)]
pub struct State {
    /// The active realm.
    pub realm: RealmId,
    pub player: Player,
    pub cam: Camera,
    /// Levitation: walk through everything; the sprite hovers.
    pub levitate: bool,
    /// Start-menu cursor; None = closed. Not part of saves.
    pub menu: Option<u8>,
    /// Sim frame counter driving the bob. Not part of saves.
    pub ticks: u32,
    /// Warp or door sequence in progress. Not part of saves.
    pub transition: Option<Transition>,
    /// Last step's input, for press-edge detection. Not part of saves.
    pub prev_input: Input,
}

// ---- the save form -------------------------------------------------------

/// Byte `k` of a number, lowest first.
pub open spec fn byte_of(v: u32, k: int) -> u8 {
    if k == 0 {
        (v % 256) as u8
    } else if k == 1 {
        (v / 256 % 256) as u8
    } else if k == 2 {
        (v / 65536 % 256) as u8
    } else {
        (v / 16777216) as u8
    }
}

/// The number in two bytes.
pub open spec fn half(b: Seq<u8>, i: int) -> u16 {
    (b[i] + 256 * b[i + 1]) as u16
}

/// The number in four bytes.
pub open spec fn word(b: Seq<u8>, i: int) -> u32 {
    (b[i] + 256 * b[i + 1] + 65536 * b[i + 2] + 16777216 * b[i + 3]) as u32
}

pub open spec fn facing_code(f: Facing) -> u8 {
    match f {
        Facing::Up => 0,
        Facing::Down => 1,
        Facing::Left => 2,
        Facing::Right => 3,
    }
}

/// The code of a speed: 2 for a walk, 3 for a run, and for what is faster a 3
/// with the pixels past a run in the high four bits.
pub open spec fn speed_code(speed: u8) -> u8 {
    if speed < RUN_PX_PER_STEP {
        2
    } else if speed < BIKE_TOP_PX_PER_STEP {
        (3 + 16 * (speed - RUN_PX_PER_STEP)) as u8
    } else {
        (3 + 16 * (BIKE_TOP_PX_PER_STEP - RUN_PX_PER_STEP)) as u8
    }
}

/// Motion: its code and the single that goes with it.
pub open spec fn motion_code(m: Motion) -> (u8, u32) {
    match m {
        Motion::Idle => (0, 0),
        Motion::Turning { steps_left } => (1, single::single_of(steps_left as u32) as u32),
        Motion::Moving { remaining_px, speed } => (speed_code(speed), remaining_px),
    }
}

/// The momentum of a bike that keeps to its tier.
pub open spec fn own_momentum(tier: u8) -> u8 {
    (tier + tier / 2) as u8
}

/// The code of an avatar. That of a bike holds its tier in the low four bits,
/// and in the high four how far its momentum is ahead of the tier's own,
/// counted round from 3 to 0.
pub open spec fn avatar_code(a: Avatar) -> u8 {
    match a {
        Avatar::Walking => 0,
        Avatar::Surfing => 1,
        Avatar::Bike { tier, momentum } => {
            let t: u8 = if tier < 2 {
                tier
            } else {
                2
            };
            (2 + t + 16 * ((momentum % 4 + 4 - own_momentum(t)) % 4)) as u8
        },
    }
}

pub open spec fn map_code(m: Option<u16>) -> u16 {
    match m {
        Some(i) => i,
        None => u16::MAX,
    }
}

/// The last map's number stands for no map too; a bit beside the elevation
/// tells the two apart.
pub open spec fn last_map_bit(m: Option<u16>) -> u8 {
    if m == Some(u16::MAX) {
        16
    } else {
        0
    }
}

pub open spec fn save_byte(s: State, i: int) -> u8 {
    if i == 0 {
        0x45
    } else if i == 1 {
        0x53
    } else if i == 2 {
        3
    } else if i < 5 {
        byte_of(s.realm as u32, i - 3)
    } else if i < 9 {
        byte_of(codec::bits32(s.player.x), i - 5)
    } else if i < 13 {
        byte_of(codec::bits32(s.player.y), i - 9)
    } else if i == 13 {
        facing_code(s.player.facing)
    } else if i == 14 {
        motion_code(s.player.motion).0
    } else if i < 19 {
        byte_of(motion_code(s.player.motion).1, i - 15)
    } else if i == 19 {
        s.player.step_loop
    } else if i < 22 {
        byte_of(map_code(s.player.current_map) as u32, i - 20)
    } else if i < 26 {
        byte_of(s.cam.x, i - 22)
    } else if i < 30 {
        byte_of(s.cam.y, i - 26)
    } else if i < 34 {
        byte_of(s.cam.zoom, i - 30)
    } else if i == 34 {
        codec::flag_byte(s.levitate)
    } else if i == 35 {
        avatar_code(s.player.avatar)
    } else {
        (s.player.elevation % 16 + last_map_bit(s.player.current_map)) as u8
    }
}

/// The save of a state.
pub open spec fn saved(s: State) -> Seq<u8> {
    Seq::new(37, |i: int| save_byte(s, i))
}

pub open spec fn facing_from(b: u8) -> Option<Facing> {
    if b == 0 {
        Some(Facing::Up)
    } else if b == 1 {
        Some(Facing::Down)
    } else if b == 2 {
        Some(Facing::Left)
    } else if b == 3 {
        Some(Facing::Right)
    } else {
        None
    }
}

pub open spec fn speed_from(code: u8) -> Option<u8> {
    if code == 2 {
        Some(WALK_PX_PER_STEP)
    } else if code % 16 == 3 && code / 16 <= BIKE_TOP_PX_PER_STEP - RUN_PX_PER_STEP {
        Some((RUN_PX_PER_STEP + code / 16) as u8)
    } else {
        None
    }
}

/// A turn takes 1 to 8 steps, a move has up to 16 pixels left.
pub open spec fn motion_from(code: u8, arg: u32) -> Option<Motion> {
    if code == 0 {
        Some(Motion::Idle)
    } else if code == 1 && ONE <= arg <= EIGHT {
        Some(Motion::Turning { steps_left: single::floor_of(arg) as u8 })
    } else if 0 < arg <= SIXTEEN {
        match speed_from(code) {
            Some(speed) => Some(Motion::Moving { remaining_px: arg, speed }),
            None => None,
        }
    } else {
        None
    }
}

pub open spec fn avatar_from(b: u8) -> Option<Avatar> {
    if b == 0 {
        Some(Avatar::Walking)
    } else if b == 1 {
        Some(Avatar::Surfing)
    } else if 2 <= b % 16 <= 4 && b / 16 < 4 {
        let tier = (b % 16 - 2) as u8;
        Some(Avatar::Bike { tier, momentum: ((own_momentum(tier) + b / 16) % 4) as u8 })
    } else {
        None
    }
}

pub open spec fn map_from(v: u16, last: bool) -> Option<u16> {
    if v == u16::MAX && !last {
        None
    } else {
        Some(v)
    }
}

/// The state that a save holds, where it is one.
pub open spec fn loaded(b: Seq<u8>) -> Option<State> {
    if b.len() != 37 || b[0] != 0x45 || b[1] != 0x53 || b[2] != 3 {
        None
    } else {
        match (avatar_from(b[35]), facing_from(b[13]), motion_from(b[14], word(b, 15))) {
            (Some(avatar), Some(facing), Some(motion)) => Some(
                State {
                    realm: half(b, 3),
                    player: Player {
                        x: codec::signed32(word(b, 5)),
                        y: codec::signed32(word(b, 9)),
                        facing,
                        motion,
                        step_loop: b[19] % 2,
                        avatar,
                        elevation: b[36] % 16,
                        current_map: map_from(half(b, 20), b[36] / 16 % 2 == 1),
                    },
                    cam: Camera { x: word(b, 22), y: word(b, 26), zoom: word(b, 30) },
                    levitate: b[34] != 0,
                    menu: None,
                    ticks: 0,
                    transition: None,
                    prev_input: types::no_input(),
                },
            ),
            _ => None,
        }
    }
}

// ---- what play keeps -----------------------------------------------------

/// Whether a transition counts within its bounds.
pub open spec fn transition_ok(t: Transition) -> bool {
    match t {
        Transition::DoorOpen { t, .. } => t < DOOR_T,
        Transition::FadeOut { t, .. } => t < FADE_T,
        Transition::FadeIn { t, .. } => t < FADE_T,
        Transition::DoorClose { t, .. } => t < DOOR_T,
        _ => true,
    }
}

/// Whether a player is one that a save can hold: a turn has at most its 8
/// steps, a bike three tiers and a momentum up to 3, the step loop is a bit and
/// the elevation has four.
pub open spec fn saveable(p: Player) -> bool {
    &&& player::motion_ok(p.motion)
    &&& p.avatar matches Avatar::Bike { tier, momentum } ==> tier <= 2 && momentum <= 3
    &&& p.motion matches Motion::Turning { steps_left } ==> steps_left <= TURN_STEPS
    &&& p.step_loop <= 1
    &&& p.elevation < 16
}

impl State {
    pub open spec fn wf(&self) -> bool {
        &&& saveable(self.player)
        &&& self.menu matches Some(c) ==> c < MENU_LEN
        &&& self.transition matches Some(t) ==> transition_ok(t)
    }

    /// The save file of a state.
    pub fn to_bytes(&self) -> (b: Vec<u8>)
        ensures
            b@ == saved(*self),
    {
        let mut b: Vec<u8> = Vec::new();
        b.push(0x45);
        b.push(0x53);
        b.push(3);
        put16(&mut b, self.realm);
        put32(&mut b, unsigned(self.player.x));
        put32(&mut b, unsigned(self.player.y));
        b.push(
            match self.player.facing {
                Facing::Up => 0,
                Facing::Down => 1,
                Facing::Left => 2,
                Facing::Right => 3,
            },
        );
        let (code, arg): (u8, u32) = match self.player.motion {
            Motion::Idle => (0, 0),
            Motion::Turning { steps_left } => (1, bits_of(steps_left as u32)),
            Motion::Moving { remaining_px, speed } => {
                let code: u8 = if speed < RUN_PX_PER_STEP {
                    2
                } else if speed < BIKE_TOP_PX_PER_STEP {
                    3 + 16 * (speed - RUN_PX_PER_STEP)
                } else {
                    3 + 16 * (BIKE_TOP_PX_PER_STEP - RUN_PX_PER_STEP)
                };
                (code, remaining_px)
            },
        };
        b.push(code);
        put32(&mut b, arg);
        b.push(self.player.step_loop);
        put16(
            &mut b,
            match self.player.current_map {
                Some(i) => i,
                None => u16::MAX,
            },
        );
        put32(&mut b, self.cam.x);
        put32(&mut b, self.cam.y);
        put32(&mut b, self.cam.zoom);
        b.push(if self.levitate { 1 } else { 0 });
        b.push(
            match self.player.avatar {
                Avatar::Walking => 0,
                Avatar::Surfing => 1,
                Avatar::Bike { tier, momentum } => {
                    let t: u8 = if tier < 2 { tier } else { 2 };
                    2 + t + 16 * ((momentum % 4 + 4 - (t + t / 2)) % 4)
                },
            },
        );
        let last: u8 = match self.player.current_map {
            Some(i) => if i == u16::MAX { 16 } else { 0 },
            None => 0,
        };
        b.push(self.player.elevation % 16 + last);
        assert(b@ =~= saved(*self));
        b
    }

    /// Read a save file.
    pub fn from_bytes(b: &[u8]) -> (res: Result<State, PackError>)
        ensures
            match loaded(b@) {
                Some(s) => (res matches Ok(r) && r == s && r.wf()),
                None => (res matches Err(e) && e.0@ == "bad save state"@),
            },
    {
        if b.len() != 37 || b[0] != 0x45 || b[1] != 0x53 || b[2] != 3 {
            return Err(PackError("bad save state"));
        }
        let avatar = match b[35] {
            0 => Avatar::Walking,
            1 => Avatar::Surfing,
            t => if 2 <= t % 16 && t % 16 <= 4 && t / 16 < 4 {
                let tier: u8 = t % 16 - 2;
                Avatar::Bike { tier, momentum: (tier + tier / 2 + t / 16) % 4 }
            } else {
                return Err(PackError("bad save state"));
            },
        };
        let facing = match b[13] {
            0 => Facing::Up,
            1 => Facing::Down,
            2 => Facing::Left,
            3 => Facing::Right,
            _ => return Err(PackError("bad save state")),
        };
        let arg: u32 = get32(b, 15);
        let code: u8 = b[14];
        let motion = if code == 0 {
            Motion::Idle
        } else if code == 1 && ONE <= arg && arg <= EIGHT {
            proof {
                lemma_turn(arg);
            }
            Motion::Turning { steps_left: floor_bits(arg) as u8 }
        } else if code == 2 && 0 < arg && arg <= SIXTEEN {
            Motion::Moving { remaining_px: arg, speed: WALK_PX_PER_STEP }
        } else if code % 16 == 3 && code / 16 <= BIKE_TOP_PX_PER_STEP - RUN_PX_PER_STEP && 0 < arg
            && arg <= SIXTEEN {
            Motion::Moving { remaining_px: arg, speed: RUN_PX_PER_STEP + code / 16 }
        } else {
            return Err(PackError("bad save state"));
        };
        let map: u16 = get16(b, 20);
        Ok(
            State {
                realm: get16(b, 3),
                player: Player {
                    x: signed_word(get32(b, 5)),
                    y: signed_word(get32(b, 9)),
                    facing,
                    motion,
                    step_loop: b[19] % 2,
                    avatar,
                    elevation: b[36] % 16,
                    current_map: if map == u16::MAX && b[36] / 16 % 2 == 0 {
                        None
                    } else {
                        Some(map)
                    },
                },
                cam: Camera { x: get32(b, 22), y: get32(b, 26), zoom: get32(b, 30) },
                levitate: b[34] != 0,
                menu: None,
                ticks: 0,
                transition: None,
                prev_input: Input::default(),
            },
        )
    }
}

fn unsigned(v: i32) -> (r: u32)
    ensures
        r == codec::bits32(v),
{
    if v < 0 {
        (v as i64 + 0x1_0000_0000) as u32
    } else {
        v as u32
    }
}

fn put16(b: &mut Vec<u8>, v: u16)
    ensures
        final(b)@ == old(b)@ + Seq::new(2, |k: int| byte_of(v as u32, k)),
{
    b.push((v % 256) as u8);
    b.push((v / 256) as u8);
    assert(b@ =~= old(b)@ + Seq::new(2, |k: int| byte_of(v as u32, k)));
}

fn put32(b: &mut Vec<u8>, v: u32)
    ensures
        final(b)@ == old(b)@ + Seq::new(4, |k: int| byte_of(v, k)),
{
    b.push((v % 256) as u8);
    b.push((v / 256 % 256) as u8);
    b.push((v / 65536 % 256) as u8);
    b.push((v / 16777216) as u8);
    assert(b@ =~= old(b)@ + Seq::new(4, |k: int| byte_of(v, k)));
}

fn get16(b: &[u8], i: usize) -> (v: u16)
    requires
        i + 2 <= b@.len(),
    ensures
        v == half(b@, i as int),
{
    b[i] as u16 + 256 * b[i + 1] as u16
}

fn get32(b: &[u8], i: usize) -> (v: u32)
    requires
        i + 4 <= b@.len(),
    ensures
        v == word(b@, i as int),
{
    b[i] as u32 + 256 * b[i + 1] as u32 + 65536 * b[i + 2] as u32 + 16777216 * b[i + 3] as u32
}

/// A saved turn has 1 to 8 steps left.
proof fn lemma_turn(arg: u32)
    requires
        ONE <= arg <= EIGHT,
    ensures
        1 <= single::floor_of(arg) <= 8,
{
    let e = arg / 0x80_0000;
    let m = 0x80_0000 + arg % 0x80_0000;
    assert(single::two_to(23) == 0x80_0000 && single::two_to(22) == 0x40_0000 && single::two_to(21)
        == 0x20_0000 && single::two_to(20) == 0x10_0000) by {
        reveal_with_fuel(single::two_to, 24);
    }
    assert(e == 127 || e == 128 || e == 129 || (e == 130 && m == 0x80_0000));
}

/// What a save holds is a state of play.
pub proof fn lemma_loaded(b: Seq<u8>)
    ensures
        loaded(b) matches Some(s) ==> s.wf(),
{
    if loaded(b) is Some && b[14] == 1 {
        lemma_turn(word(b, 15));
    }
}

/// A whole number of steps is saved and read back.
proof fn lemma_whole_turn(n: u8)
    requires
        1 <= n <= 8,
    ensures
        ONE <= single::single_of(n as u32) <= EIGHT,
        single::floor_of(single::single_of(n as u32) as u32) == n,
{
    assert(single::two_to(23) == 0x80_0000 && single::two_to(22) == 0x40_0000 && single::two_to(21)
        == 0x20_0000 && single::two_to(20) == 0x10_0000) by {
        reveal_with_fuel(single::two_to, 24);
    }
    reveal_with_fuel(single::top_bit, 5);
    let b = single::single_of(n as u32);
    if n == 1 {
        assert(b == 127 * 0x80_0000);
    } else if n <= 3 {
        assert(n * single::two_to(22) == 0x40_0000 * n);
        assert(b == 128 * 0x80_0000 + (n * 0x40_0000 - 0x80_0000));
    } else if n <= 7 {
        assert(n * single::two_to(21) == 0x20_0000 * n);
        assert(b == 129 * 0x80_0000 + (n * 0x20_0000 - 0x80_0000));
    } else {
        assert(n * single::two_to(20) == 0x10_0000 * n);
        assert(b == 130 * 0x80_0000);
    }
}

/// The avatars of play are told apart by their codes.
proof fn lemma_avatar(a: Avatar)
    requires
        a matches Avatar::Bike { tier, momentum } ==> tier <= 2 && momentum <= 3,
    ensures
        avatar_from(avatar_code(a)) == Some(a),
{
    if let Avatar::Bike { tier, momentum } = a {
        assert(tier == 0 || tier == 1 || tier == 2);
        assert(momentum == 0 || momentum == 1 || momentum == 2 || momentum == 3);
    }
}

proof fn lemma_word(v: u32, b: Seq<u8>, i: int)
    requires
        0 <= i,
        i + 4 <= b.len(),
        forall|k: int| 0 <= k < 4 ==> #[trigger] b[i + k] == byte_of(v, k),
    ensures
        word(b, i) == v,
{
    assert(b[i + 0] == byte_of(v, 0));
    assert(b[i + 1] == byte_of(v, 1));
    assert(b[i + 2] == byte_of(v, 2));
    assert(b[i + 3] == byte_of(v, 3));
}

/// The numbers of a save.
proof fn lemma_saved_words(s: State)
    ensures
        ({
            let b = saved(s);
            &&& half(b, 3) == s.realm
            &&& codec::signed32(word(b, 5)) == s.player.x
            &&& codec::signed32(word(b, 9)) == s.player.y
            &&& word(b, 15) == motion_code(s.player.motion).1
            &&& half(b, 20) == map_code(s.player.current_map)
            &&& word(b, 22) == s.cam.x
            &&& word(b, 26) == s.cam.y
            &&& word(b, 30) == s.cam.zoom
        }),
{
    let b = saved(s);
    lemma_word(codec::bits32(s.player.x), b, 5);
    lemma_word(codec::bits32(s.player.y), b, 9);
    lemma_word(motion_code(s.player.motion).1, b, 15);
    lemma_word(s.cam.x, b, 22);
    lemma_word(s.cam.y, b, 26);
    lemma_word(s.cam.zoom, b, 30);
}

/// The motions of play are told apart by their codes.
proof fn lemma_motion(m: Motion)
    requires
        player::motion_ok(m),
        m matches Motion::Turning { steps_left } ==> steps_left <= TURN_STEPS,
    ensures
        motion_from(motion_code(m).0, motion_code(m).1) == Some(m),
{
    match m {
        Motion::Idle => {},
        Motion::Turning { steps_left } => lemma_whole_turn(steps_left),
        Motion::Moving { remaining_px, speed } => {
            assert(speed == 1 || speed == 2 || speed == 3 || speed == 4);
        },
    }
}

/// The codes of a save.
proof fn lemma_saved_codes(s: State)
    requires
        s.wf(),
    ensures
        ({
            let b = saved(s);
            &&& facing_from(b[13]) == Some(s.player.facing)
            &&& motion_from(b[14], motion_code(s.player.motion).1) == Some(s.player.motion)
            &&& b[19] % 2 == s.player.step_loop
            &&& avatar_from(b[35]) == Some(s.player.avatar)
            &&& b[36] % 16 == s.player.elevation
            &&& map_from(map_code(s.player.current_map), b[36] / 16 % 2 == 1)
                == s.player.current_map
        }),
{
    let b = saved(s);
    assert(b[14] == motion_code(s.player.motion).0);
    assert(b[35] == avatar_code(s.player.avatar));
    lemma_motion(s.player.motion);
    lemma_avatar(s.player.avatar);
}

// ---- laws ----------------------------------------------------------------

/// What a save keeps of a state: all of it but the menu, the frame counter, a
/// transition and the last input, which start anew.
pub open spec fn resumed(s: State) -> State {
    State { menu: None, ticks: 0, transition: None, prev_input: types::no_input(), ..s }
}

/// Every state of play can be saved, and reading the save gives it back: the
/// realm, the player with its motion and its ride, the camera and levitation
/// are what they were, and nothing but the menu, the frame counter, a
/// transition and the last input is lost.
pub proof fn a_save_reads_back(s: State)
    requires
        s.wf(),
    ensures
        saved(s).len() == 37,
        loaded(saved(s)) == Some(resumed(s)),
        resumed(s).realm == s.realm,
        resumed(s).player == s.player,
        resumed(s).cam == s.cam,
        resumed(s).levitate == s.levitate,
{
    let b = saved(s);
    lemma_saved_words(s);
    lemma_saved_codes(s);
    assert(b[0] == 0x45 && b[1] == 0x53 && b[2] == 3);
    assert((b[34] != 0) == s.levitate);
    assert(loaded(b)->0.player == s.player);
    assert(loaded(b)->0.cam == s.cam);
}

/// Saving what was read from a save gives the same bytes.
pub proof fn a_save_is_stable(s: State)
    requires
        s.wf(),
    ensures
        resumed(s).wf(),
        saved(resumed(s)) == saved(s),
{
    assert(saved(resumed(s)) =~= saved(s));
}

} // verus!
