//! A step of the player carried out on the game state: bumping walls and
//! locked doors, talking to the wizard, reading signs, taking memories and
//! items, breaking barrels, shoving or striking creatures, and walking.

use vstd::prelude::*;

use crate::colors::{cyan, dark_gray, orange, yellow};
use crate::dialogue::{blank, log_after, transcript, Dialogue, DialogueLine, DialogueLineKind, DialogueSpeaker};
use crate::entity::{kind_name, Direction, EntityKind, Position};
use crate::event_log::{appended, EventLog};
use crate::fragment::{FragmentRegistry, collectable, findable_total, lemma_status_count_bound, status_count, Fragment, FragmentStatus};
use crate::map::TileType;
use crate::mechanics::{
    activate_pressure_plate, award_counting_room_key, map_with, memory_key_name, try_open_counting_room_door,
};
use crate::movement::{player_step, player_step_spec, step_from, StepOutcome};
use crate::game::ActionCost;
use crate::paths::{decimal, decimal_string};
use crate::save::{RestoredEntity, RestoredState};
use crate::dialogue::is_blank;
use crate::text::{cat, chars_of, str_eq, string_from_chars};
use crate::movement::lemma_first_at_bounds;

verus! {

/// An entity the player can meet: alive and not the player.
pub open spec fn present(e: RestoredEntity) -> bool {
    e.alive && e.kind != EntityKind::Player
}

/// The indices, in order, of the present entities among the first `n`.
pub open spec fn present_idx(es: Seq<RestoredEntity>, n: int) -> Seq<int>
    decreases n,
{
    if n <= 0 {
        Seq::empty()
    } else if present(es[n - 1]) {
        present_idx(es, n - 1).push(n - 1)
    } else {
        present_idx(es, n - 1)
    }
}

/// The indices of all present entities.
pub open spec fn present_all(es: Seq<RestoredEntity>) -> Seq<int> {
    present_idx(es, es.len() as int)
}

/// Where the present entities stand and what they are, in order.
pub open spec fn present_view(es: Seq<RestoredEntity>, idx: Seq<int>) -> Seq<(Position, EntityKind)> {
    Seq::new(idx.len(), |j: int| (es[idx[j]].pos, es[idx[j]].kind))
}

/// Whether `k` is the first entity with this id.
pub open spec fn first_with(es: Seq<RestoredEntity>, id: usize, k: int) -> bool {
    0 <= k < es.len() && es[k].id == id && forall|j: int| 0 <= j < k ==> es[j].id != id
}

/// The index of the first entity with the player's id.
pub open spec fn player_slot(es: Seq<RestoredEntity>, id: usize) -> int {
    choose|k: int| first_with(es, id, k)
}

/// Where the player stands.
pub open spec fn player_pos(s: RestoredState) -> Position {
    s.entities@[player_slot(s.entities@, s.player_id)].pos
}

/// What a step of the player in `dir` comes to in this state.
pub open spec fn step_of(s: RestoredState, dir: Direction) -> (StepOutcome, ActionCost) {
    player_step_spec(
        s.map,
        player_pos(s),
        present_view(s.entities@, present_all(s.entities@)),
        s.player_can_attack,
        s.depth,
        s.held_keys@.len() as usize,
        dir,
    )
}

/// The lines of a text as `str::lines` gives them: split at each line
/// feed, a carriage return just before it dropped, no last empty line (a
/// carriage return that ends the text stays).
pub open spec fn text_lines(s: Seq<char>) -> Seq<Seq<char>> {
    lines_from(s, 0, Seq::empty(), Seq::empty())
}

pub open spec fn without_cr(l: Seq<char>) -> Seq<char> {
    if l.len() > 0 && l.last() == '\r' {
        l.drop_last()
    } else {
        l
    }
}

pub open spec fn lines_from(s: Seq<char>, i: int, cur: Seq<char>, acc: Seq<Seq<char>>) -> Seq<Seq<char>>
    decreases s.len() - i,
{
    if i < 0 || i >= s.len() {
        if cur.len() > 0 {
            acc.push(cur)
        } else {
            acc
        }
    } else if s[i] == '\n' {
        lines_from(s, i + 1, Seq::empty(), acc.push(without_cr(cur)))
    } else {
        lines_from(s, i + 1, cur.push(s[i]), acc)
    }
}

/// `new` is the log `old` with the dialogue of `speaker` saying `parts`
/// (each a kind of line and its text) appended.
#[verifier::opaque]
pub open spec fn said(
    old: Seq<(Seq<char>, Option<(u8, u8, u8)>)>,
    new: Seq<(Seq<char>, Option<(u8, u8, u8)>)>,
    speaker: DialogueSpeaker,
    parts: Seq<(DialogueLineKind, Seq<char>)>,
) -> bool {
    exists|d: Dialogue|
        {
            &&& d.speaker == speaker
            &&& d.lines@.len() == parts.len()
            &&& forall|i: int| 0 <= i < parts.len() ==> (#[trigger] d.lines@[i]).kind == parts[i].0 && d.lines@[i].text@
                == parts[i].1
            &&& new == #[trigger] log_after(old, transcript(d, parts.len() as int), parts.len() + 1int)
        }
}

/// The lines of a text as plain dialogue lines.
pub open spec fn plain_parts(lines: Seq<Seq<char>>) -> Seq<(DialogueLineKind, Seq<char>)> {
    Seq::new(lines.len(), |i: int| (DialogueLineKind::Plain, lines[i]))
}

/// What the wizard says the first time he meets the player below the foyer.
pub open spec fn lesson_parts() -> Seq<(DialogueLineKind, Seq<char>)> {
    seq![
        (DialogueLineKind::Action, "The wizard raises a glowing hand..."@),
        (DialogueLineKind::Speech, "I can't keep everything off you forever. It's time you learned to strike back."@),
        (DialogueLineKind::Action, "Warmth spreads through your body. HP fully restored."@),
        (DialogueLineKind::Plain, "Open the console (`) and bind attack to a key:"@),
        (DialogueLineKind::Code, "(bind-key :z (do-attack))    -- attacks in facing direction"@),
        (DialogueLineKind::Code, "(bind-key :x (do-attack :east))   (bind-key :c (do-attack :west))"@),
        (DialogueLineKind::Speech, "Bind it, and the way down will open. I'll be just ahead of you. I always am."@),
    ]
}

/// The memory a collected fragment shows: its id, a blank line, its text
/// line by line and the count of memories recovered.
pub open spec fn memory_parts(id: Seq<char>, text: Seq<char>, collected: nat, findable: nat) -> Seq<(DialogueLineKind, Seq<char>)> {
    seq![(DialogueLineKind::Plain, "MEMORY: "@ + id), (DialogueLineKind::Plain, Seq::<char>::empty())] + plain_parts(text_lines(text)) + seq![
        (
            DialogueLineKind::Plain,
            "Collected "@ + decimal(collected) + " of "@ + decimal(findable) + " findable memories."@,
        ),
    ]
}

/// Key bindings by their characters.
pub open spec fn bindings_view(bs: Seq<(String, String)>) -> Seq<(Seq<char>, Seq<char>)> {
    Seq::new(bs.len(), |i: int| (bs[i].0@, bs[i].1@))
}

/// The bindings `v` with `key` bound to `body`: the first binding of the
/// key replaced where there is one, else the binding added at the end.
pub open spec fn rebound(v: Seq<(Seq<char>, Seq<char>)>, key: Seq<char>, body: Seq<char>) -> Seq<(Seq<char>, Seq<char>)> {
    if exists|i: int| 0 <= i < v.len() && v[i].0 == key {
        let i = choose|i: int| 0 <= i < v.len() && v[i].0 == key && forall|j: int| 0 <= j < i ==> v[j].0 != key;
        v.update(i, (key, body))
    } else {
        v.push((key, body))
    }
}

/// The index of the first fragment with this id.
pub open spec fn first_with_id(s: Seq<Fragment>, id: Seq<char>) -> int {
    choose|i: int| 0 <= i < s.len() && s[i].id@ == id && forall|j: int| 0 <= j < i ==> s[j].id@ != id
}

/// The player healed to full.
pub open spec fn healed(e: RestoredEntity) -> RestoredEntity {
    RestoredEntity { hp_current: e.hp_max, ..e }
}

/// A sign's text, empty when it has none.
pub open spec fn sign_text(e: RestoredEntity) -> Seq<char> {
    match e.sign_message {
        Some(m) => m@,
        None => Seq::empty(),
    }
}

/// A sign's lines as the sign speaks them: blank lines as empty plain ones.
pub open spec fn sign_parts(lines: Seq<Seq<char>>) -> Seq<(DialogueLineKind, Seq<char>)> {
    Seq::new(
        lines.len(),
        |i: int| if blank(lines[i]) {
            (DialogueLineKind::Plain, Seq::<char>::empty())
        } else {
            (DialogueLineKind::Speech, lines[i])
        },
    )
}

/// Every field but those a step can change stays.
pub open spec fn keeps_rest(a: RestoredState, b: RestoredState) -> bool {
    &&& b.depth == a.depth
    &&& b.turn == a.turn
    &&& b.player_id == a.player_id
    &&& b.wizard_id == a.wizard_id
    &&& b.cheat_unlocked == a.cheat_unlocked
    &&& b.blocking == a.blocking
    &&& b.user_source@ == a.user_source@
    &&& b.ending == a.ending
    &&& b.registry_write_unlocked == a.registry_write_unlocked
    &&& b.gauntlet_barrier_locked@ == a.gauntlet_barrier_locked@
    &&& b.explored_tiles@ == a.explored_tiles@
    &&& b.seen_entity_kinds@ == a.seen_entity_kinds@
    &&& b.seen_tile_types@ == a.seen_tile_types@
    &&& b.known_rule_ids@ == a.known_rule_ids@
    &&& b.console_history@ == a.console_history@
    &&& b.barrel_room_protected == a.barrel_room_protected
    &&& b.maze_shifting_walls@ == a.maze_shifting_walls@
    &&& b.maze_shift_frozen == a.maze_shift_frozen
}

/// `t` is `s` but for the parts flagged as free to change; the log stays
/// well formed.
pub open spec fn same_except(
    s: RestoredState,
    t: RestoredState,
    map: bool,
    ents: bool,
    log: bool,
    binds: bool,
    frags: bool,
    keys: bool,
    items: bool,
    learn: bool,
) -> bool {
    &&& keeps_rest(s, t)
    &&& t.facing == s.facing
    &&& t.log.wf()
    &&& !map ==> t.map == s.map
    &&& !ents ==> t.entities@ == s.entities@
    &&& !log ==> t.log.lines() == s.log.lines()
    &&& !binds ==> t.bindings@ == s.bindings@
    &&& !frags ==> t.fragments.entries() == s.fragments.entries()
    &&& !keys ==> t.held_keys@ == s.held_keys@
    &&& !items ==> t.held_items@ == s.held_items@
    &&& !learn ==> t.player_can_attack == s.player_can_attack && t.wizard_taught == s.wizard_taught
}

/// The entity at index `k` gone from play.
pub open spec fn removed(es: Seq<RestoredEntity>, k: int) -> Seq<RestoredEntity> {
    es.update(k, RestoredEntity { alive: false, ..es[k] })
}

/// The entity at index `k` hit for one point: it falls when nothing is left.
pub open spec fn hit(es: Seq<RestoredEntity>, k: int) -> Seq<RestoredEntity> {
    es.update(
        k,
        RestoredEntity { hp_current: (es[k].hp_current - 1) as i32, alive: es[k].hp_current - 1 > 0, ..es[k] },
    )
}

/// The entity at index `k` moved to `q`.
pub open spec fn moved_to(es: Seq<RestoredEntity>, k: int, q: Position) -> Seq<RestoredEntity> {
    es.update(k, RestoredEntity { pos: q, ..es[k] })
}

/// The wizard spoken to: on the foyer before the lesson he only greets;
/// below it the first meeting heals the player, teaches the attack and says
/// the lesson; after that he heals and encourages.
pub open spec fn wizard_spoke(s: RestoredState, t: RestoredState, p: int) -> bool {
    let es = s.entities@;
    if !s.wizard_taught && s.depth == 0 {
        &&& same_except(s, t, false, false, true, false, false, false, false, false)
        &&& said(
            s.log.lines(),
            t.log.lines(),
            DialogueSpeaker::Wizard,
            seq![(DialogueLineKind::Speech, "Good. I see you're awake. Keep moving; I'll find you below."@)],
        )
    } else if !s.wizard_taught {
        &&& same_except(s, t, false, true, true, false, false, false, false, true)
        &&& t.entities@ == es.update(p, healed(es[p]))
        &&& t.player_can_attack && t.wizard_taught
        &&& said(s.log.lines(), t.log.lines(), DialogueSpeaker::Wizard, lesson_parts())
    } else {
        &&& same_except(s, t, false, true, true, false, false, false, false, false)
        &&& t.entities@ == es.update(p, healed(es[p]))
        &&& said(
            s.log.lines(),
            t.log.lines(),
            DialogueSpeaker::Wizard,
            seq![
                (DialogueLineKind::Speech, "Keep going. You're getting closer."@),
                (DialogueLineKind::Action, "The wizard taps your shoulder. You feel refreshed."@),
            ],
        )
    }
}

/// A sign read: the first time (by the sign's id) its lines go to the log
/// and the sign is remembered as read.
pub open spec fn sign_read(s: RestoredState, rs: Seq<usize>, t: RestoredState, rt: Seq<usize>, k: int) -> bool {
    let e = s.entities@[k];
    &&& same_except(s, t, false, false, true, false, false, false, false, false)
    &&& !rs.contains(e.id) ==> rt == rs.push(e.id) && said(
        s.log.lines(),
        t.log.lines(),
        DialogueSpeaker::Sign,
        sign_parts(text_lines(sign_text(e))),
    )
    &&& rs.contains(e.id) ==> rt == rs && t.log.lines() == s.log.lines()
}

/// The memory of fragment `fid` told: its lines go to the log (`mid`);
/// when it is the first memory recovered, `m` is bound to the memory view
/// and a hint says so.
#[verifier::opaque]
pub open spec fn memory_told(
    ol: Seq<(Seq<char>, Option<(u8, u8, u8)>)>,
    nl: Seq<(Seq<char>, Option<(u8, u8, u8)>)>,
    ob: Seq<(String, String)>,
    nb: Seq<(String, String)>,
    after: Seq<Fragment>,
    fid: Seq<char>,
) -> bool {
    let collected = status_count(after, FragmentStatus::Collected);
    let f = after[first_with_id(after, fid)];
    exists|mid: Seq<(Seq<char>, Option<(u8, u8, u8)>)>|
        {
            &&& #[trigger] said(
                ol,
                mid,
                DialogueSpeaker::Memory,
                memory_parts(f.id@, f.text@, collected, findable_total(after)),
            )
            &&& collected == 1 ==> bindings_view(nb) == rebound(bindings_view(ob), "m"@, "(toggle-memories!)"@)
                && said(
                mid,
                nl,
                DialogueSpeaker::Narration,
                seq![(DialogueLineKind::Hint, "Press m to view collected memories."@)],
            )
            &&& collected != 1 ==> nb == ob && nl == mid
        }
}

/// A memory fragment taken. A fragment still hidden in the registry is
/// collected, its memory shown, and the entity leaves; the first memory
/// also binds `m` to the memory view and says so. One already collected
/// only leaves, with a gray note. Otherwise nothing happens.
#[verifier::opaque]
pub open spec fn fragment_taken(s: RestoredState, t: RestoredState, k: int) -> bool {
    let e = s.entities@[k];
    let before = s.fragments.entries();
    let after = t.fragments.entries();
    match e.fragment_id {
        None => same_except(s, t, false, false, false, false, false, false, false, false),
        Some(fid) => if exists|i: int| 0 <= i < before.len() && collectable(#[trigger] before[i], fid@) {
            let collected = status_count(after, FragmentStatus::Collected);
            &&& same_except(s, t, false, true, true, true, true, false, false, false)
            &&& exists|i: int|
                {
                    &&& 0 <= i < before.len()
                    &&& collectable(#[trigger] before[i], fid@)
                    &&& forall|j: int| 0 <= j < i ==> !collectable(#[trigger] before[j], fid@)
                    &&& after == before.update(i, Fragment { status: FragmentStatus::Collected, ..before[i] })
                }
            &&& t.entities@ == removed(s.entities@, k)
            &&& memory_told(s.log.lines(), t.log.lines(), s.bindings@, t.bindings@, after, fid@)
        } else if exists|i: int| 0 <= i < before.len() && (#[trigger] before[i]).id@ == fid@ && before[
            first_with_id(before, fid@)].status == FragmentStatus::Collected {
            &&& same_except(s, t, false, true, true, false, false, false, false, false)
            &&& t.entities@ == removed(s.entities@, k)
            &&& t.log.lines() == appended(
                s.log.lines(),
                ("Memory "@ + fid@ + " is already recovered."@, Some((169u8, 169u8, 169u8))),
            )
        } else {
            same_except(s, t, false, false, false, false, false, false, false, false)
        },
    }
}

/// The name an item is held under.
pub open spec fn item_name(k: EntityKind) -> Seq<char> {
    if k == EntityKind::ShadeEcho {
        "Shade Echo"@
    } else {
        "Vapor Canteen"@
    }
}

/// What picking an item up says.
pub open spec fn pickup_note(k: EntityKind) -> Seq<char> {
    if k == EntityKind::ShadeEcho {
        "You pick up the Shade Echo. It shivers faintly in your hand."@
    } else {
        "You pick up the Vapor Canteen. The liquid inside feels cold."@
    }
}

/// What a step of the player in `dir` does to the state `s` (and to the
/// ids of the signs read on this level, `rs`), giving `t` and `rt`.
pub open spec fn moved(s: RestoredState, rs: Seq<usize>, dir: Direction, t: RestoredState, rt: Seq<usize>) -> bool {
    let es = s.entities@;
    let idx = present_all(es);
    let p = player_slot(es, s.player_id);
    let target = step_from(player_pos(s), dir);
    match step_of(s, dir).0 {
        StepOutcome::Bump => {
            &&& rt == rs
            &&& same_except(s, t, false, false, true, false, false, false, false, false)
            &&& t.log.lines() == appended(s.log.lines(), ("You bump into a wall. Time still moves."@, None))
        },
        StepOutcome::OpenDoor => {
            &&& rt == rs
            &&& same_except(s, t, true, false, true, false, false, true, false, false)
            &&& t.held_keys@ == s.held_keys@.drop_last()
            &&& map_with(s.map, t.map, |q: Position| q == target, TileType::Floor)
            &&& t.log.lines() == appended(
                s.log.lines(),
                ("The key dissolves in your hand. The locked door opens."@, Some((0u8, 255u8, 255u8))),
            )
        },
        StepOutcome::LockedDoor => {
            &&& rt == rs
            &&& same_except(s, t, false, false, true, false, false, false, false, false)
            &&& t.log.lines() == appended(
                s.log.lines(),
                (
                    "The door is locked. Somewhere nearby, a key-goblin is carrying what you need."@,
                    Some((255u8, 255u8, 0u8)),
                ),
            )
        },
        StepOutcome::Wizard(_) => rt == rs && wizard_spoke(s, t, p),
        StepOutcome::Sign(i) => sign_read(s, rs, t, rt, idx[i as int]),
        StepOutcome::Fragment(i) => rt == rs && fragment_taken(s, t, idx[i as int]),
        StepOutcome::PickUp(i) => {
            let k = idx[i as int];
            &&& rt == rs
            &&& same_except(s, t, false, true, true, false, false, false, true, false)
            &&& t.entities@ == removed(es, k)
            &&& t.held_items@.len() == s.held_items@.len() + 1
            &&& t.held_items@.drop_last() == s.held_items@
            &&& t.held_items@.last()@ == item_name(es[k].kind)
            &&& t.log.lines() == appended(s.log.lines(), (pickup_note(es[k].kind), Some((0u8, 255u8, 255u8))))
        },
        StepOutcome::Barrel(i) => {
            let k = idx[i as int];
            let shattered = appended(
                s.log.lines(),
                ("The barrel shatters into splinters!"@, Some((255u8, 165u8, 0u8))),
            );
            &&& rt == rs
            &&& same_except(s, t, false, true, true, false, false, false, false, false)
            &&& t.entities@ == hit(es, k)
            &&& t.log.lines() == if s.map.spec_contains(es[k].pos) && s.map.tile_at(es[k].pos)
                == TileType::StairsDown {
                appended(shattered, ("The stairs down are revealed!"@, Some((0u8, 255u8, 255u8))))
            } else {
                shattered
            }
        },
        StepOutcome::Shove(i, q) => {
            let k = idx[i as int];
            &&& rt == rs
            &&& same_except(s, t, false, true, true, false, false, false, false, false)
            &&& t.entities@ == moved_to(es, k, q)
            &&& t.log.lines() == appended(
                s.log.lines(),
                ("You shove the "@ + kind_name(es[k].kind) + " back."@, Some((255u8, 255u8, 0u8))),
            )
        },
        StepOutcome::ShoveBlocked(i) => {
            let k = idx[i as int];
            &&& rt == rs
            &&& same_except(s, t, false, false, true, false, false, false, false, false)
            &&& t.log.lines() == appended(
                s.log.lines(),
                ("You shove the "@ + kind_name(es[k].kind) + ". It doesn't budge."@, None),
            )
        },
        StepOutcome::Strike(i) => {
            let k = idx[i as int];
            let name = kind_name(es[k].kind);
            let struck = appended(
                s.log.lines(),
                ("You strike the "@ + name + " for 1 damage."@, Some((255u8, 165u8, 0u8))),
            );
            let falls = es[k].hp_current - 1 <= 0;
            let fell = appended(struck, ("The "@ + name + " collapses into inert code."@, Some((255u8, 165u8, 0u8))));
            let award = falls && s.depth == 8 && es[k].kind == EntityKind::Goblin && s.held_keys@.len() < 3;
            &&& rt == rs
            &&& same_except(s, t, false, true, true, false, false, true, false, false)
            &&& t.entities@ == hit(es, k)
            &&& !falls ==> t.log.lines() == struck && t.held_keys@ == s.held_keys@
            &&& falls && !award ==> t.log.lines() == fell && t.held_keys@ == s.held_keys@
            &&& award ==> {
                &&& t.held_keys@.len() == s.held_keys@.len() + 1
                &&& t.held_keys@.drop_last() == s.held_keys@
                &&& t.held_keys@.last()@ == memory_key_name((s.held_keys@.len() + 1) as nat)
                &&& t.log.lines() == appended(
                    fell,
                    ("A memory-key clatters to the floor. You pick it up."@, Some((0u8, 255u8, 255u8))),
                )
            }
        },
        StepOutcome::MoveTo(q) => {
            let plate = s.map.tile_at(q) == TileType::PressurePlate && s.depth == 2 && q == (Position {
                x: 38i32,
                y: 28i32,
            });
            let closed = s.map.tile_at(Position { x: 35i32, y: 28i32 }) == TileType::Wall;
            let clicked = if closed {
                "Click. The door opens."@
            } else {
                "Click. The door slides shut behind you."@
            };
            let before = if plate {
                appended(s.log.lines(), (clicked, Some((0u8, 255u8, 0u8))))
            } else {
                s.log.lines()
            };
            &&& rt == rs
            &&& same_except(s, t, true, true, true, false, false, false, false, false)
            &&& t.entities@ == moved_to(es, p, q)
            &&& plate ==> map_with(
                s.map,
                t.map,
                |r: Position| r.x == 35 && (r.y == 28 || r.y == 29),
                if closed {
                    TileType::Floor
                } else {
                    TileType::Wall
                },
            )
            &&& !plate ==> t.map == s.map
            &&& t.log.lines() == appended(
                before,
                ("You move to "@ + decimal(q.x as nat) + ","@ + decimal(q.y as nat) + "."@, Some((169u8, 169u8, 169u8))),
            )
        },
    }
}

/// The texts of a list of strings.
pub open spec fn strings_view(v: Seq<String>) -> Seq<Seq<char>> {
    Seq::new(v.len(), |i: int| v[i]@)
}

/// The kinds and texts of dialogue lines.
pub open spec fn line_parts(ls: Seq<DialogueLine>) -> Seq<(DialogueLineKind, Seq<char>)> {
    Seq::new(ls.len(), |i: int| (ls[i].kind, ls[i].text@))
}

proof fn lemma_present_idx_bounds(es: Seq<RestoredEntity>, n: int)
    requires
        0 <= n <= es.len(),
    ensures
        present_idx(es, n).len() <= n,
        forall|j: int| 0 <= j < present_idx(es, n).len() ==> 0 <= #[trigger] present_idx(es, n)[j] < n,
    decreases n,
{
    if n > 0 {
        lemma_present_idx_bounds(es, n - 1);
    }
}

/// Where the present entities stand and what they are, with their indices.
fn present_entities(es: &Vec<RestoredEntity>) -> (r: (Vec<(Position, EntityKind)>, Vec<usize>))
    ensures
        r.1@.len() == present_all(es@).len(),
        forall|j: int| 0 <= j < r.1@.len() ==> r.1@[j] as int == #[trigger] present_all(es@)[j],
        r.0@ == present_view(es@, present_all(es@)),
{
    let mut view: Vec<(Position, EntityKind)> = Vec::new();
    let mut idx: Vec<usize> = Vec::new();
    let mut k: usize = 0;
    while k < es.len()
        invariant
            k <= es@.len(),
            idx@.len() == present_idx(es@, k as int).len(),
            forall|j: int| 0 <= j < idx@.len() ==> idx@[j] as int == #[trigger] present_idx(es@, k as int)[j],
            view@ == present_view(es@, present_idx(es@, k as int)),
        decreases es.len() - k,
    {
        proof {
            lemma_present_idx_bounds(es@, k as int);
        }
        if es[k].alive && es[k].kind != EntityKind::Player {
            view.push((es[k].pos, es[k].kind));
            idx.push(k);
        }
        k = k + 1;
        assert(view@ =~= present_view(es@, present_idx(es@, k as int)));
    }
    (view, idx)
}

/// The first entity with this id, which is there.
pub(crate) fn find_entity(es: &Vec<RestoredEntity>, id: usize) -> (k: usize)
    requires
        exists|k: int| 0 <= k < es@.len() && es@[k].id == id,
    ensures
        k as int == player_slot(es@, id),
        first_with(es@, id, k as int),
{
    let mut k: usize = 0;
    while k < es.len()
        invariant
            k <= es@.len(),
            forall|j: int| 0 <= j < k ==> es@[j].id != id,
            exists|k: int| 0 <= k < es@.len() && es@[k].id == id,
        decreases es.len() - k,
    {
        if es[k].id == id {
            proof {
                assert(first_with(es@, id, k as int));
                let c = player_slot(es@, id);
                assert(first_with(es@, id, c));
                if c < k {
                    assert(es@[c].id != id);
                } else if c > k {
                    assert(es@[k as int].id != id);
                }
            }
            return k;
        }
        k = k + 1;
    }
    proof {
        let w = choose|w: int| 0 <= w < es@.len() && es@[w].id == id;
        assert(es@[w].id != id);
    }
    0
}

/// Logs what the speaker says.
fn log_dialogue(speaker: DialogueSpeaker, lines: Vec<DialogueLine>, log: &mut EventLog)
    requires
        old(log).wf(),
    ensures
        final(log).wf(),
        said(old(log).lines(), final(log).lines(), speaker, line_parts(lines@)),
{
    let ghost parts = line_parts(lines@);
    let d = Dialogue::mixed(speaker, lines);
    d.log(log);
    proof {
        reveal(said);
        assert(d.lines@.len() == parts.len());
        assert(forall|i: int| 0 <= i < parts.len() ==> (#[trigger] d.lines@[i]).kind == parts[i].0 && d.lines@[i].text@
            == parts[i].1);
        assert(log.lines() == log_after(old(log).lines(), transcript(d, parts.len() as int), parts.len() + 1int));
    }
}

/// A text without a carriage return at its end.
fn strip_cr(cur: Vec<char>) -> (r: String)
    ensures
        r@ == without_cr(cur@),
{
    let mut c = cur;
    if c.len() > 0 && c[c.len() - 1] == '\r' {
        c.pop();
    }
    string_from_chars(c.as_slice())
}

/// The lines of a text, as `text_lines` says.
fn lines_of(text: &str) -> (r: Vec<String>)
    ensures
        strings_view(r@) == text_lines(text@),
{
    let cs = chars_of(text);
    let mut acc: Vec<String> = Vec::new();
    let mut cur: Vec<char> = Vec::new();
    let mut i: usize = 0;
    assert(strings_view(acc@) =~= Seq::<Seq<char>>::empty());
    while i < cs.len()
        invariant
            i <= cs@.len(),
            cs@ == text@,
            lines_from(cs@, i as int, cur@, strings_view(acc@)) == text_lines(text@),
        decreases cs.len() - i,
    {
        let ghost a0 = strings_view(acc@);
        if cs[i] == '\n' {
            let line = strip_cr(cur);
            acc.push(line);
            assert(strings_view(acc@) =~= a0.push(line@));
            cur = Vec::new();
        } else {
            let ghost c0 = cur@;
            cur.push(cs[i]);
            assert(cur@ == c0.push(cs@[i as int]));
        }
        i = i + 1;
    }
    if cur.len() > 0 {
        let ghost a0 = strings_view(acc@);
        let line = string_from_chars(cur.as_slice());
        acc.push(line);
        assert(strings_view(acc@) =~= a0.push(line@));
    }
    acc
}

/// An entity with a new position, hit points and life.
pub(crate) fn set_entity(es: &mut Vec<RestoredEntity>, k: usize, pos: Position, hp: i32, alive: bool)
    requires
        k < old(es)@.len(),
    ensures
        final(es)@ == old(es)@.update(
            k as int,
            RestoredEntity { pos, hp_current: hp, alive, ..old(es)@[k as int] },
        ),
{
    let mut e = RestoredEntity {
        id: 0,
        pos: Position::new(0, 0),
        kind: EntityKind::Player,
        hp_current: 0,
        hp_max: 0,
        alive: false,
        glyph: ' ',
        sign_message: None,
        fragment_id: None,
    };
    es.set_and_swap(k, &mut e);
    e.pos = pos;
    e.hp_current = hp;
    e.alive = alive;
    es.set_and_swap(k, &mut e);
}

/// The wizard spoken to by the player at index `p`.
fn meet_wizard(s: &mut RestoredState, p: usize)
    requires
        p < old(s).entities@.len(),
        old(s).log.wf(),
    ensures
        wizard_spoke(*old(s), *final(s), p as int),
{
    if !s.wizard_taught && s.depth == 0 {
        let mut lines: Vec<DialogueLine> = Vec::new();
        lines.push(DialogueLine::speech("Good. I see you're awake. Keep moving; I'll find you below.".to_owned()));
        log_dialogue(DialogueSpeaker::Wizard, lines, &mut s.log);
        assert(line_parts(lines@) =~= seq![
            (DialogueLineKind::Speech, "Good. I see you're awake. Keep moving; I'll find you below."@),
        ]);
        return;
    }
    let pos = s.entities[p].pos;
    let full = s.entities[p].hp_max;
    let alive = s.entities[p].alive;
    set_entity(&mut s.entities, p, pos, full, alive);
    assert(s.entities@ =~= old(s).entities@.update(p as int, healed(old(s).entities@[p as int])));
    if !s.wizard_taught {
        s.player_can_attack = true;
        s.wizard_taught = true;
        let mut lines: Vec<DialogueLine> = Vec::new();
        lines.push(DialogueLine::action("The wizard raises a glowing hand...".to_owned()));
        lines.push(
            DialogueLine::speech(
                "I can't keep everything off you forever. It's time you learned to strike back.".to_owned(),
            ),
        );
        lines.push(DialogueLine::action("Warmth spreads through your body. HP fully restored.".to_owned()));
        lines.push(DialogueLine::plain("Open the console (`) and bind attack to a key:".to_owned()));
        lines.push(DialogueLine::code("(bind-key :z (do-attack))    -- attacks in facing direction".to_owned()));
        lines.push(DialogueLine::code("(bind-key :x (do-attack :east))   (bind-key :c (do-attack :west))".to_owned()));
        lines.push(
            DialogueLine::speech(
                "Bind it, and the way down will open. I'll be just ahead of you. I always am.".to_owned(),
            ),
        );
        assert(line_parts(lines@) =~= lesson_parts());
        log_dialogue(DialogueSpeaker::Wizard, lines, &mut s.log);
    } else {
        let mut lines: Vec<DialogueLine> = Vec::new();
        lines.push(DialogueLine::speech("Keep going. You're getting closer.".to_owned()));
        lines.push(DialogueLine::action("The wizard taps your shoulder. You feel refreshed.".to_owned()));
        assert(line_parts(lines@) =~= seq![
            (DialogueLineKind::Speech, "Keep going. You're getting closer."@),
            (DialogueLineKind::Action, "The wizard taps your shoulder. You feel refreshed."@),
        ]);
        log_dialogue(DialogueSpeaker::Wizard, lines, &mut s.log);
    }
}

/// The sign at index `k` read.
fn read_sign(s: &mut RestoredState, read_signs: &mut Vec<usize>, k: usize)
    requires
        k < old(s).entities@.len(),
        old(s).log.wf(),
    ensures
        sign_read(*old(s), old(read_signs)@, *final(s), final(read_signs)@, k as int),
{
    let id = s.entities[k].id;
    let mut j: usize = 0;
    while j < read_signs.len()
        invariant
            j <= read_signs@.len(),
            *s == *old(s),
            read_signs@ == old(read_signs)@,
            s.log.wf(),
            id == s.entities@[k as int].id,
            forall|m: int| 0 <= m < j ==> read_signs@[m] != id,
        decreases read_signs.len() - j,
    {
        if read_signs[j] == id {
            assert(read_signs@[j as int] == id);
            return;
        }
        j = j + 1;
    }
    assert(!read_signs@.contains(id));
    read_signs.push(id);
    let text: &str = match &s.entities[k].sign_message {
        Some(m) => m.as_str(),
        None => "",
    };
    proof {
        if s.entities@[k as int].sign_message is None {
            reveal_strlit("");
        }
    }
    assert(text@ == sign_text(s.entities@[k as int]));
    let ls = lines_of(text);
    let ghost want = sign_parts(text_lines(text@));
    let mut lines: Vec<DialogueLine> = Vec::new();
    let mut i: usize = 0;
    while i < ls.len()
        invariant
            i <= ls@.len(),
            strings_view(ls@) == text_lines(text@),
            want == sign_parts(text_lines(text@)),
            line_parts(lines@) == want.take(i as int),
        decreases ls.len() - i,
    {
        let ghost before = lines@;
        assert(ls@[i as int]@ == text_lines(text@)[i as int]);
        assert(strings_view(ls@)[i as int] == ls@[i as int]@);
        assert(line_parts(lines@).len() == lines@.len());
        assert(lines@.len() == i);
        assert(want.len() == ls@.len()) by {
            assert(strings_view(ls@).len() == ls@.len());
        }
        if is_blank(ls[i].as_str()) {
            let e = String::new();
            assert(e@ =~= Seq::<char>::empty());
            lines.push(DialogueLine::plain(e));
            assert(line_parts(lines@)[i as int] == want[i as int]);
        } else {
            lines.push(DialogueLine::speech(ls[i].clone()));
            assert(line_parts(lines@)[i as int] == want[i as int]);
        }
        assert(line_parts(lines@) =~= want.take(i + 1));
        i = i + 1;
    }
    assert(want.take(ls@.len() as int) =~= want);
    log_dialogue(DialogueSpeaker::Sign, lines, &mut s.log);
}

/// Binds `key` to `body`, as `rebound` says.
fn rebind(bindings: &mut Vec<(String, String)>, key: String, body: String)
    ensures
        bindings_view(final(bindings)@) == rebound(bindings_view(old(bindings)@), key@, body@),
{
    let ghost v = bindings_view(bindings@);
    let mut i: usize = 0;
    while i < bindings.len()
        invariant
            i <= bindings@.len(),
            bindings@ == old(bindings)@,
            v == bindings_view(bindings@),
            forall|j: int| 0 <= j < i ==> v[j].0 != key@,
        decreases bindings.len() - i,
    {
        assert(v[i as int] == (bindings@[i as int].0@, bindings@[i as int].1@));
        if str_eq(bindings[i].0.as_str(), key.as_str()) {
            proof {
                assert(v[i as int].0 == key@);
                let c = choose|c: int| 0 <= c < v.len() && v[c].0 == key@ && forall|j: int| 0 <= j < c ==> v[j].0 != key@;
                assert(0 <= i < v.len() && v[i as int].0 == key@ && forall|j: int| 0 <= j < i ==> v[j].0 != key@);
                if c < i {
                    assert(v[c].0 != key@);
                } else if c > i {
                    assert(v[i as int].0 != key@);
                }
            }
            let ghost kv = key@;
            let ghost bv = body@;
            bindings.set(i, (key, body));
            assert(bindings_view(bindings@) =~= v.update(i as int, (kv, bv)));
            return;
        }
        i = i + 1;
    }
    let ghost kv = key@;
    let ghost bv = body@;
    bindings.push((key, body));
    assert(bindings_view(bindings@) =~= v.push((kv, bv)));
}

/// The lines of the memory a fragment shows, as `memory_parts` says.
fn memory_lines(id_text: &String, body: &String, collected: usize, findable: usize) -> (lines: Vec<DialogueLine>)
    requires
        collected <= u32::MAX,
        findable <= u32::MAX,
    ensures
        line_parts(lines@) == memory_parts(id_text@, body@, collected as nat, findable as nat),
{
    let mut lines: Vec<DialogueLine> = Vec::new();
    lines.push(DialogueLine::plain(cat("MEMORY: ", id_text.as_str())));
    let e = String::new();
    assert(e@ =~= Seq::<char>::empty());
    lines.push(DialogueLine::plain(e));
    let ls = lines_of(body.as_str());
    let ghost head = line_parts(lines@);
    let ghost body_lines = plain_parts(text_lines(body@));
    assert(body_lines.len() == ls@.len()) by {
        assert(strings_view(ls@).len() == ls@.len());
    }
    let mut i: usize = 0;
    while i < ls.len()
        invariant
            i <= ls@.len(),
            strings_view(ls@) == text_lines(body@),
            body_lines == plain_parts(text_lines(body@)),
            body_lines.len() == ls@.len(),
            head.len() == 2,
            lines@.len() == 2 + i,
            line_parts(lines@) == head + body_lines.take(i as int),
        decreases ls.len() - i,
    {
        assert(strings_view(ls@)[i as int] == ls@[i as int]@);
        assert(body_lines[i as int] == (DialogueLineKind::Plain, ls@[i as int]@));
        let ghost before = lines@;
        let l = DialogueLine::plain(ls[i].clone());
        lines.push(l);
        assert(lines@ == before.push(l));
        assert(line_parts(lines@) =~= line_parts(before).push((DialogueLineKind::Plain, ls@[i as int]@)));
        assert(head + body_lines.take(i + 1) =~= (head + body_lines.take(i as int)).push(body_lines[i as int]));
        i = i + 1;
    }
    assert(body_lines.take(ls@.len() as int) =~= body_lines);
    let c_text = decimal_string(collected as u32);
    let f_text = decimal_string(findable as u32);
    let a = cat("Collected ", c_text.as_str());
    let b = cat(a.as_str(), " of ");
    let c = cat(b.as_str(), f_text.as_str());
    let last = cat(c.as_str(), " findable memories.");
    let ghost before = lines@;
    let l = DialogueLine::plain(last);
    lines.push(l);
    assert(lines@ == before.push(l));
    assert(line_parts(lines@) =~= line_parts(before).push((DialogueLineKind::Plain, l.text@)));
    assert(head =~= seq![
        (DialogueLineKind::Plain, "MEMORY: "@ + id_text@),
        (DialogueLineKind::Plain, Seq::<char>::empty()),
    ]);
    assert(line_parts(lines@) =~= memory_parts(id_text@, body@, collected as nat, findable as nat));
    lines
}

proof fn lemma_first_with_id(after: Seq<Fragment>, fid: Seq<char>, i: int)
    requires
        0 <= i < after.len(),
        after[i].id@ == fid,
        forall|j: int| 0 <= j < i ==> (#[trigger] after[j]).id@ != fid,
    ensures
        first_with_id(after, fid) == i,
{
    let c = first_with_id(after, fid);
    assert(0 <= c < after.len() && after[c].id@ == fid && forall|j: int| 0 <= j < c ==> after[j].id@ != fid);
    if c < i {
        assert(after[c].id@ != fid);
    } else if c > i {
        assert(after[i].id@ != fid);
    }
}

proof fn lemma_memory_told(
    ol: Seq<(Seq<char>, Option<(u8, u8, u8)>)>,
    mid: Seq<(Seq<char>, Option<(u8, u8, u8)>)>,
    nl: Seq<(Seq<char>, Option<(u8, u8, u8)>)>,
    ob: Seq<(String, String)>,
    nb: Seq<(String, String)>,
    after: Seq<Fragment>,
    fid: Seq<char>,
)
    requires
        said(
            ol,
            mid,
            DialogueSpeaker::Memory,
            memory_parts(
                after[first_with_id(after, fid)].id@,
                after[first_with_id(after, fid)].text@,
                status_count(after, FragmentStatus::Collected),
                findable_total(after),
            ),
        ),
        status_count(after, FragmentStatus::Collected) == 1 ==> bindings_view(nb) == rebound(
            bindings_view(ob),
            "m"@,
            "(toggle-memories!)"@,
        ) && said(mid, nl, DialogueSpeaker::Narration, seq![(DialogueLineKind::Hint, "Press m to view collected memories."@)]),
        status_count(after, FragmentStatus::Collected) != 1 ==> nb == ob && nl == mid,
    ensures
        memory_told(ol, nl, ob, nb, after, fid),
{
    reveal(memory_told);
}

/// Tells the memory of fragment `fid`, which the registry holds.
fn tell_memory(log: &mut EventLog, bindings: &mut Vec<(String, String)>, frags: &FragmentRegistry, fid: &String)
    requires
        old(log).wf(),
        frags.entries().len() <= u32::MAX,
        exists|i: int| 0 <= i < frags.entries().len() && (#[trigger] frags.entries()[i]).id@ == fid@,
    ensures
        final(log).wf(),
        memory_told(old(log).lines(), final(log).lines(), old(bindings)@, final(bindings)@, frags.entries(), fid@),
{
    let ghost after = frags.entries();
    let collected = frags.collected_count();
    let findable = frags.findable_count();
    proof {
        lemma_status_count_bound(after, FragmentStatus::Collected);
        lemma_status_count_bound(after, FragmentStatus::Suppressed);
    }
    let (id_text, body) = match frags.get(fid.as_str()) {
        Some(frag) => (frag.id.clone(), frag.text.clone()),
        None => {
            proof {
                let w = choose|i: int| 0 <= i < after.len() && (#[trigger] after[i]).id@ == fid@;
                assert(after[w].id@ == fid@);
            }
            return;
        },
    };
    proof {
        let i = choose|i: int|
            {
                &&& 0 <= i < after.len()
                &&& #[trigger] after[i].id@ == id_text@
                &&& after[i].text@ == body@
                &&& after[i].id@ == fid@
                &&& forall|j: int| 0 <= j < i ==> (#[trigger] after[j]).id@ != fid@
            };
        lemma_first_with_id(after, fid@, i);
    }
    let lines = memory_lines(&id_text, &body, collected, findable);
    log_dialogue(DialogueSpeaker::Memory, lines, log);
    let ghost mid = log.lines();
    if collected == 1 {
        rebind(bindings, "m".to_owned(), "(toggle-memories!)".to_owned());
        let mut hint: Vec<DialogueLine> = Vec::new();
        hint.push(DialogueLine::hint("Press m to view collected memories.".to_owned()));
        assert(line_parts(hint@) =~= seq![(DialogueLineKind::Hint, "Press m to view collected memories."@)]);
        log_dialogue(DialogueSpeaker::Narration, hint, log);
    }
    proof {
        lemma_memory_told(old(log).lines(), mid, log.lines(), old(bindings)@, bindings@, after, fid@);
    }
}

proof fn lemma_fragment_untouched(s: RestoredState, t: RestoredState, k: int)
    requires
        same_except(s, t, false, false, false, false, false, false, false, false),
        match s.entities@[k].fragment_id {
            None => true,
            Some(fid) => !(exists|i: int|
                0 <= i < s.fragments.entries().len() && collectable(#[trigger] s.fragments.entries()[i], fid@))
                && !(exists|i: int|
                0 <= i < s.fragments.entries().len() && (#[trigger] s.fragments.entries()[i]).id@ == fid@
                    && s.fragments.entries()[first_with_id(s.fragments.entries(), fid@)].status
                    == FragmentStatus::Collected),
        },
    ensures
        fragment_taken(s, t, k),
{
    reveal(fragment_taken);
}

proof fn lemma_fragment_collected(s: RestoredState, t: RestoredState, k: int, fid: String)
    requires
        s.entities@[k].fragment_id == Some(fid),
        exists|i: int| 0 <= i < s.fragments.entries().len() && collectable(#[trigger] s.fragments.entries()[i], fid@),
        same_except(s, t, false, true, true, true, true, false, false, false),
        exists|i: int|
            {
                &&& 0 <= i < s.fragments.entries().len()
                &&& collectable(#[trigger] s.fragments.entries()[i], fid@)
                &&& forall|j: int| 0 <= j < i ==> !collectable(#[trigger] s.fragments.entries()[j], fid@)
                &&& t.fragments.entries() == s.fragments.entries().update(
                    i,
                    Fragment { status: FragmentStatus::Collected, ..s.fragments.entries()[i] },
                )
            },
        t.entities@ == removed(s.entities@, k),
        memory_told(s.log.lines(), t.log.lines(), s.bindings@, t.bindings@, t.fragments.entries(), fid@),
    ensures
        fragment_taken(s, t, k),
{
    reveal(fragment_taken);
}

proof fn lemma_fragment_recovered(s: RestoredState, t: RestoredState, k: int, fid: String)
    requires
        s.entities@[k].fragment_id == Some(fid),
        !exists|i: int| 0 <= i < s.fragments.entries().len() && collectable(#[trigger] s.fragments.entries()[i], fid@),
        exists|i: int|
            0 <= i < s.fragments.entries().len() && (#[trigger] s.fragments.entries()[i]).id@ == fid@
                && s.fragments.entries()[first_with_id(s.fragments.entries(), fid@)].status == FragmentStatus::Collected,
        same_except(s, t, false, true, true, false, false, false, false, false),
        t.entities@ == removed(s.entities@, k),
        t.log.lines() == appended(
            s.log.lines(),
            ("Memory "@ + fid@ + " is already recovered."@, Some((169u8, 169u8, 169u8))),
        ),
    ensures
        fragment_taken(s, t, k),
{
    reveal(fragment_taken);
}

proof fn lemma_taken_same_entries(s1: RestoredState, s2: RestoredState, t: RestoredState, k: int)
    requires
        s2 == (RestoredState { fragments: s2.fragments, ..s1 }),
        s2.fragments.entries() == s1.fragments.entries(),
        fragment_taken(s2, t, k),
    ensures
        fragment_taken(s1, t, k),
{
    reveal(fragment_taken);
}

/// The memory fragment at index `k`, whose fragment cannot be collected.
fn note_fragment(s: &mut RestoredState, k: usize, fid: String)
    requires
        k < old(s).entities@.len(),
        old(s).log.wf(),
        old(s).entities@[k as int].fragment_id == Some(fid),
        !exists|i: int|
            0 <= i < old(s).fragments.entries().len() && collectable(#[trigger] old(s).fragments.entries()[i], fid@),
    ensures
        fragment_taken(*old(s), *final(s), k as int),
{
    let ghost before = s.fragments.entries();
    let pos = s.entities[k].pos;
    let hp = s.entities[k].hp_current;
    let gone = match s.fragments.get(fid.as_str()) {
        Some(frag) => frag.status == FragmentStatus::Collected,
        None => false,
    };
    if gone {
        proof {
            let i = choose|i: int|
                {
                    &&& 0 <= i < before.len()
                    &&& before[i].status == FragmentStatus::Collected
                    &&& #[trigger] before[i].id@ == fid@
                    &&& forall|j: int| 0 <= j < i ==> (#[trigger] before[j]).id@ != fid@
                };
            lemma_first_with_id(before, fid@, i);
        }
        let a = cat("Memory ", fid.as_str());
        let msg = cat(a.as_str(), " is already recovered.");
        s.log.push_colored(msg, dark_gray());
        set_entity(&mut s.entities, k, pos, hp, false);
        assert(s.entities@ =~= removed(old(s).entities@, k as int));
        proof {
            lemma_fragment_recovered(*old(s), *s, k as int, fid);
        }
    } else {
        proof {
            if exists|i: int| 0 <= i < before.len() && (#[trigger] before[i]).id@ == fid@ {
                let i = choose|i: int|
                    {
                        &&& 0 <= i < before.len()
                        &&& #[trigger] before[i].id@ == fid@
                        &&& forall|j: int| 0 <= j < i ==> (#[trigger] before[j]).id@ != fid@
                    };
                lemma_first_with_id(before, fid@, i);
            }
            lemma_fragment_untouched(*old(s), *s, k as int);
        }
    }
}

/// The memory fragment at index `k` taken.
#[verifier::rlimit(40)]
fn take_fragment(s: &mut RestoredState, k: usize)
    requires
        k < old(s).entities@.len(),
        old(s).log.wf(),
        old(s).fragments.entries().len() <= u32::MAX,
    ensures
        fragment_taken(*old(s), *final(s), k as int),
{
    let fid: String = match &s.entities[k].fragment_id {
        Some(f) => f.clone(),
        None => {
            proof {
                lemma_fragment_untouched(*old(s), *s, k as int);
            }
            return;
        },
    };
    let pos = s.entities[k].pos;
    let hp = s.entities[k].hp_current;
    let ghost before = s.fragments.entries();
    if s.fragments.collect(fid.as_str()) {
        proof {
            let i = choose|i: int|
                {
                    &&& 0 <= i < before.len()
                    &&& collectable(#[trigger] before[i], fid@)
                    &&& forall|j: int| 0 <= j < i ==> !collectable(#[trigger] before[j], fid@)
                    &&& s.fragments.entries() == before.update(i, Fragment { status: FragmentStatus::Collected, ..before[i] })
                };
            assert(s.fragments.entries()[i].id@ == fid@);
        }
        tell_memory(&mut s.log, &mut s.bindings, &s.fragments, &fid);
        set_entity(&mut s.entities, k, pos, hp, false);
        assert(s.entities@ =~= removed(old(s).entities@, k as int));
        proof {
            lemma_fragment_collected(*old(s), *s, k as int, fid);
        }
    } else {
        let ghost mid = *s;
        note_fragment(s, k, fid);
        proof {
            lemma_taken_same_entries(*old(s), mid, *s, k as int);
        }
    }
}

/// The item at index `k` picked up.
fn pick_up(s: &mut RestoredState, k: usize)
    requires
        k < old(s).entities@.len(),
        old(s).log.wf(),
    ensures
        same_except(*old(s), *final(s), false, true, true, false, false, false, true, false),
        final(s).entities@ == removed(old(s).entities@, k as int),
        final(s).held_items@.len() == old(s).held_items@.len() + 1,
        final(s).held_items@.drop_last() == old(s).held_items@,
        final(s).held_items@.last()@ == item_name(old(s).entities@[k as int].kind),
        final(s).log.lines() == appended(
            old(s).log.lines(),
            (pickup_note(old(s).entities@[k as int].kind), Some((0u8, 255u8, 255u8))),
        ),
{
    let kind = s.entities[k].kind;
    let pos = s.entities[k].pos;
    let hp = s.entities[k].hp_current;
    let ghost items = s.held_items@;
    if kind == EntityKind::ShadeEcho {
        s.held_items.push("Shade Echo".to_owned());
        s.log.push_colored("You pick up the Shade Echo. It shivers faintly in your hand.".to_owned(), cyan());
    } else {
        s.held_items.push("Vapor Canteen".to_owned());
        s.log.push_colored("You pick up the Vapor Canteen. The liquid inside feels cold.".to_owned(), cyan());
    }
    assert(s.held_items@.drop_last() =~= items);
    set_entity(&mut s.entities, k, pos, hp, false);
    assert(s.entities@ =~= removed(old(s).entities@, k as int));
}

/// The barrel at index `k` broken.
fn break_barrel(s: &mut RestoredState, k: usize)
    requires
        k < old(s).entities@.len(),
        old(s).log.wf(),
        old(s).map.wf(),
        old(s).entities@[k as int].hp_current > i32::MIN,
    ensures
        same_except(*old(s), *final(s), false, true, true, false, false, false, false, false),
        final(s).entities@ == hit(old(s).entities@, k as int),
        ({
            let shattered = appended(
                old(s).log.lines(),
                ("The barrel shatters into splinters!"@, Some((255u8, 165u8, 0u8))),
            );
            let e = old(s).entities@[k as int];
            final(s).log.lines() == if old(s).map.spec_contains(e.pos) && old(s).map.tile_at(e.pos)
                == TileType::StairsDown {
                appended(shattered, ("The stairs down are revealed!"@, Some((0u8, 255u8, 255u8))))
            } else {
                shattered
            }
        }),
{
    let pos = s.entities[k].pos;
    let hp = s.entities[k].hp_current - 1;
    set_entity(&mut s.entities, k, pos, hp, hp > 0);
    assert(s.entities@ =~= hit(old(s).entities@, k as int));
    s.log.push_colored("The barrel shatters into splinters!".to_owned(), orange());
    if s.map.contains(pos) && s.map.tile(pos) == TileType::StairsDown {
        s.log.push_colored("The stairs down are revealed!".to_owned(), cyan());
    }
}

/// The creature at index `k` struck.
fn strike(s: &mut RestoredState, k: usize)
    requires
        k < old(s).entities@.len(),
        old(s).log.wf(),
        old(s).entities@[k as int].hp_current > i32::MIN,
    ensures
        ({
            let es = old(s).entities@;
            let name = kind_name(es[k as int].kind);
            let struck = appended(
                old(s).log.lines(),
                ("You strike the "@ + name + " for 1 damage."@, Some((255u8, 165u8, 0u8))),
            );
            let falls = es[k as int].hp_current - 1 <= 0;
            let fell = appended(struck, ("The "@ + name + " collapses into inert code."@, Some((255u8, 165u8, 0u8))));
            let award = falls && old(s).depth == 8 && es[k as int].kind == EntityKind::Goblin && old(s).held_keys@.len()
                < 3;
            &&& same_except(*old(s), *final(s), false, true, true, false, false, true, false, false)
            &&& final(s).entities@ == hit(es, k as int)
            &&& !falls ==> final(s).log.lines() == struck && final(s).held_keys@ == old(s).held_keys@
            &&& falls && !award ==> final(s).log.lines() == fell && final(s).held_keys@ == old(s).held_keys@
            &&& award ==> {
                &&& final(s).held_keys@.len() == old(s).held_keys@.len() + 1
                &&& final(s).held_keys@.drop_last() == old(s).held_keys@
                &&& final(s).held_keys@.last()@ == memory_key_name((old(s).held_keys@.len() + 1) as nat)
                &&& final(s).log.lines() == appended(
                    fell,
                    ("A memory-key clatters to the floor. You pick it up."@, Some((0u8, 255u8, 255u8))),
                )
            }
        }),
{
    let kind = s.entities[k].kind;
    let name = kind.name();
    let pos = s.entities[k].pos;
    let hp = s.entities[k].hp_current - 1;
    set_entity(&mut s.entities, k, pos, hp, hp > 0);
    assert(s.entities@ =~= hit(old(s).entities@, k as int));
    let a = cat("You strike the ", name);
    s.log.push_colored(cat(a.as_str(), " for 1 damage."), orange());
    if hp <= 0 {
        let b = cat("The ", name);
        s.log.push_colored(cat(b.as_str(), " collapses into inert code."), orange());
        award_counting_room_key(s.depth, kind, &mut s.held_keys, &mut s.log);
    }
}

/// The player at index `p` walks onto `q`, a walkable tile.
fn walk(s: &mut RestoredState, p: usize, q: Position)
    requires
        p < old(s).entities@.len(),
        old(s).log.wf(),
        old(s).map.wf(),
        old(s).map.walkable_at(q),
        old(s).depth == 2 && old(s).map.spec_contains(Position { x: 38i32, y: 28i32 }) ==> old(s).map.spec_contains(
            Position { x: 35i32, y: 28i32 },
        ),
    ensures
        ({
            let plate = old(s).map.tile_at(q) == TileType::PressurePlate && old(s).depth == 2 && q == (Position {
                x: 38i32,
                y: 28i32,
            });
            let closed = old(s).map.tile_at(Position { x: 35i32, y: 28i32 }) == TileType::Wall;
            let clicked = if closed {
                "Click. The door opens."@
            } else {
                "Click. The door slides shut behind you."@
            };
            let before = if plate {
                appended(old(s).log.lines(), (clicked, Some((0u8, 255u8, 0u8))))
            } else {
                old(s).log.lines()
            };
            &&& same_except(*old(s), *final(s), true, true, true, false, false, false, false, false)
            &&& final(s).entities@ == moved_to(old(s).entities@, p as int, q)
            &&& plate ==> map_with(
                old(s).map,
                final(s).map,
                |r: Position| r.x == 35 && (r.y == 28 || r.y == 29),
                if closed {
                    TileType::Floor
                } else {
                    TileType::Wall
                },
            )
            &&& !plate ==> final(s).map == old(s).map
            &&& final(s).log.lines() == appended(
                before,
                ("You move to "@ + decimal(q.x as nat) + ","@ + decimal(q.y as nat) + "."@, Some((169u8, 169u8, 169u8))),
            )
        }),
{
    let hp = s.entities[p].hp_current;
    let alive = s.entities[p].alive;
    set_entity(&mut s.entities, p, q, hp, alive);
    assert(s.entities@ =~= moved_to(old(s).entities@, p as int, q));
    if s.map.tile(q) == TileType::PressurePlate {
        activate_pressure_plate(s.depth, q, &mut s.map, &mut s.log);
    }
    let xs = decimal_string(q.x as u32);
    let ys = decimal_string(q.y as u32);
    let a = cat("You move to ", xs.as_str());
    let b = cat(a.as_str(), ",");
    let c = cat(b.as_str(), ys.as_str());
    s.log.push_colored(cat(c.as_str(), "."), dark_gray());
}

/// Carries out a step of the player in `dir` (see `moved`): bumps walls
/// and locked doors, speaks to the wizard, reads signs (`read_signs` holds
/// the ids of the signs already read on this level), takes memories and
/// items, breaks barrels, shoves or strikes creatures, or walks and steps on
/// the pressure plate. Returns what the step came to and what it costs.
/// The rule a tile may carry runs in the Glyph interpreter, which the caller
/// runs after a walk; removed entities stay in the list, no longer alive.
#[verifier::spinoff_prover]
#[verifier::rlimit(50)]
pub fn apply_player_move(s: &mut RestoredState, read_signs: &mut Vec<usize>, dir: Direction) -> (r: (
    StepOutcome,
    ActionCost,
))
    requires
        old(s).map.wf(),
        old(s).log.wf(),
        exists|k: int| 0 <= k < old(s).entities@.len() && old(s).entities@[k].id == old(s).player_id,
        forall|k: int|
            0 <= k < old(s).entities@.len() ==> i32::MIN + 2 <= (#[trigger] old(s).entities@[k]).pos.x <= i32::MAX
                - 2 && i32::MIN + 2 <= old(s).entities@[k].pos.y <= i32::MAX - 2 && old(s).entities@[k].hp_current
                > i32::MIN,
        old(s).fragments.entries().len() <= u32::MAX,
        old(s).depth == 2 && old(s).map.spec_contains(Position { x: 38i32, y: 28i32 }) ==> old(s).map.spec_contains(
            Position { x: 35i32, y: 28i32 },
        ),
    ensures
        r == step_of(*old(s), dir),
        moved(*old(s), old(read_signs)@, dir, *final(s), final(read_signs)@),
{
    let p = find_entity(&s.entities, s.player_id);
    let (view, idx) = present_entities(&s.entities);
    let me = s.entities[p].pos;
    let r = player_step(&s.map, me, &view, s.player_can_attack, s.depth, s.held_keys.len(), dir);
    let (dx, dy) = dir.delta();
    let target = Position::new(me.x + dx, me.y + dy);
    proof {
        lemma_first_at_bounds(view@, target, 0);
        lemma_present_idx_bounds(s.entities@, s.entities@.len() as int);
    }
    match r.0 {
        StepOutcome::Bump => {
            s.log.push("You bump into a wall. Time still moves.".to_owned());
        },
        StepOutcome::OpenDoor => {
            try_open_counting_room_door(s.depth, target, &mut s.held_keys, &mut s.map, &mut s.log);
        },
        StepOutcome::LockedDoor => {
            try_open_counting_room_door(s.depth, target, &mut s.held_keys, &mut s.map, &mut s.log);
        },
        StepOutcome::Wizard(_) => {
            meet_wizard(s, p);
        },
        StepOutcome::Sign(i) => {
            read_sign(s, read_signs, idx[i]);
        },
        StepOutcome::Fragment(i) => {
            take_fragment(s, idx[i]);
        },
        StepOutcome::PickUp(i) => {
            pick_up(s, idx[i]);
        },
        StepOutcome::Barrel(i) => {
            break_barrel(s, idx[i]);
        },
        StepOutcome::Shove(i, q) => {
            let k = idx[i];
            let name = s.entities[k].kind.name();
            let hp = s.entities[k].hp_current;
            let alive = s.entities[k].alive;
            set_entity(&mut s.entities, k, q, hp, alive);
            assert(s.entities@ =~= moved_to(old(s).entities@, k as int, q));
            let a = cat("You shove the ", name);
            s.log.push_colored(cat(a.as_str(), " back."), yellow());
        },
        StepOutcome::ShoveBlocked(i) => {
            let k = idx[i];
            let name = s.entities[k].kind.name();
            let a = cat("You shove the ", name);
            s.log.push(cat(a.as_str(), ". It doesn't budge."));
        },
        StepOutcome::Strike(i) => {
            strike(s, idx[i]);
        },
        StepOutcome::MoveTo(q) => {
            walk(s, p, q);
        },
    }
    r
}

} // verus!
