//! The rule registry: every piece of game logic that players can inspect,
//! with its phase, cost and Glyph source.
//!
//! Rules are the laws of physics of the dungeon: how enemies behave, how the
//! flashlight works, what fire does. Each rule has an id, a phase (when it
//! runs), a cost (whether it uses up a turn) and the Glyph source players see
//! in the inspector.

use vstd::prelude::*;
use vstd::std_specs::iter::IteratorSpec;

use crate::entity::{kind_rule_name, EntityKind};
use crate::map::TileType;
use crate::text::{chars_of, str_eq, string_from_chars};

verus! {

/// When a rule runs during a turn.
#[derive(Clone, Copy, Debug, PartialEq, Eq, Structural)]
pub enum RulePhase {
    /// Enemy behaviour, e.g. slimes chasing the player.
    EnemyAi,
    /// Effects of the tile the player stands on, e.g. fire.
    TileEffect,
    /// Drawing only, e.g. the flashlight cone.
    Render,
}

/// Whether executing a rule costs a turn.
#[derive(Clone, Copy, Debug, PartialEq, Eq, Structural)]
pub enum RuleCost {
    /// Takes a tick of game time.
    Tick,
    /// Instant.
    Free,
}

/// One rule of the game.
#[derive(Clone, Debug)]
pub struct Rule {
    /// Unique identifier used for lookups, e.g. `slime-hunt`.
    pub id: &'static str,
    /// Name shown in the inspector.
    pub name: &'static str,
    pub phase: RulePhase,
    pub cost: RuleCost,
    /// The Glyph source shown to the player, one entry per line.
    pub source_lines: &'static [&'static str],
    /// The Glyph source the executable body is read from (a
    /// `(defrule name meta body)` form); `None` for rules that are only
    /// inspected or run natively.
    pub body_lines: Option<&'static [&'static str]>,
}

/// The collection of all rules of the game.
#[derive(Clone, Debug)]
pub struct RuleRegistry {
    rules: Vec<Rule>,
}

/// Whether some rule of `rules` has this id.
pub open spec fn has_rule(rules: Seq<Rule>, id: Seq<char>) -> bool {
    exists|i: int| 0 <= i < rules.len() && (#[trigger] rules[i]).id@ == id
}

/// Whether all rule ids differ.
pub open spec fn distinct_rule_ids(rules: Seq<Rule>) -> bool {
    forall|i: int, j: int|
        0 <= i < rules.len() && 0 <= j < rules.len() && i != j ==> #[trigger] rules[i].id@ != #[trigger] rules[j].id@
}

/// Whether a rule is visible in the inspector, given the entity kinds and
/// tile types the player has seen: the flashlight rule always is, an enemy
/// rule once an entity it drives has been seen, and the fire rule once fire
/// has been seen (provided the registry has a fire rule).
pub open spec fn rule_visible(rules: Seq<Rule>, r: Rule, seen_entities: Seq<EntityKind>, seen_tiles: Seq<TileType>) -> bool {
    ||| r.id@ == "flashlight"@
    ||| exists|k: int| 0 <= k < seen_entities.len() && kind_rule_name(#[trigger] seen_entities[k]) == r.id@
    ||| (seen_tiles.contains(TileType::Fire) && r.id@ == "fire/burn"@ && has_rule(rules, "fire/burn"@))
}

/// The ids of the visible rules among `prefix`, in registry order.
pub open spec fn visible_ids_of(rules: Seq<Rule>, prefix: Seq<Rule>, seen_entities: Seq<EntityKind>, seen_tiles: Seq<TileType>) -> Seq<Seq<char>>
    decreases prefix.len(),
{
    if prefix.len() == 0 {
        Seq::empty()
    } else if rule_visible(rules, prefix.last(), seen_entities, seen_tiles) {
        visible_ids_of(rules, prefix.drop_last(), seen_entities, seen_tiles).push(prefix.last().id@)
    } else {
        visible_ids_of(rules, prefix.drop_last(), seen_entities, seen_tiles)
    }
}

/// The first rule with this id.
pub fn find_rule<'a>(rules: &'a Vec<Rule>, id: &str) -> (r: Option<&'a Rule>)
    ensures
        r.is_none() == !has_rule(rules@, id@),
        r matches Some(rule) ==> exists|i: int|
            {
                &&& 0 <= i < rules@.len()
                &&& *rule == #[trigger] rules@[i]
                &&& rule.id@ == id@
                &&& forall|j: int| 0 <= j < i ==> (#[trigger] rules@[j]).id@ != id@
            },
{
    let n = rules.len();
    let mut i: usize = 0;
    while i < n
        invariant
            n == rules@.len(),
            i <= n,
            forall|j: int| 0 <= j < i ==> (#[trigger] rules@[j]).id@ != id@,
        decreases n - i,
    {
        if str_eq(rules[i].id, id) {
            return Some(&rules[i]);
        }
        i = i + 1;
    }
    None
}

/// The rule a tile triggers: the fire rule for fire tiles, none otherwise.
pub fn find_tile_rule<'a>(rules: &'a Vec<Rule>, tile: TileType) -> (r: Option<&'a Rule>)
    ensures
        tile != TileType::Fire ==> r.is_none(),
        tile == TileType::Fire ==> r.is_none() == !has_rule(rules@, "fire/burn"@),
        r matches Some(rule) ==> rule.id@ == "fire/burn"@ && rules@.contains(*rule),
        r matches Some(rule) ==> exists|i: int|
            {
                &&& 0 <= i < rules@.len()
                &&& *rule == #[trigger] rules@[i]
                &&& rule.id@ == "fire/burn"@
                &&& forall|j: int| 0 <= j < i ==> (#[trigger] rules@[j]).id@ != "fire/burn"@
            },
{
    match tile {
        TileType::Fire => {
            let r = find_rule(rules, "fire/burn");
            proof {
                if let Some(rule) = r {
                    let i = choose|i: int|
                        {
                            &&& 0 <= i < rules@.len()
                            &&& *rule == #[trigger] rules@[i]
                            &&& rule.id@ == "fire/burn"@
                            &&& forall|j: int| 0 <= j < i ==> (#[trigger] rules@[j]).id@ != "fire/burn"@
                        };
                    assert(rules@[i] == *rule);
                }
            }
            r
        },
        _ => None,
    }
}

/// Whether any of the seen entity kinds is driven by a rule with this id.
fn any_entity_driven_by(seen_entities: &[EntityKind], id: &str) -> (b: bool)
    ensures
        b == exists|k: int| 0 <= k < seen_entities@.len() && kind_rule_name(#[trigger] seen_entities@[k]) == id@,
{
    let n = seen_entities.len();
    let mut k: usize = 0;
    while k < n
        invariant
            n == seen_entities@.len(),
            k <= n,
            forall|j: int| 0 <= j < k ==> kind_rule_name(#[trigger] seen_entities@[j]) != id@,
        decreases n - k,
    {
        if str_eq(seen_entities[k].rule_name(), id) {
            return true;
        }
        k = k + 1;
    }
    false
}

/// Whether some seen tile triggers the rule with this id.
fn any_tile_triggers<'a>(rules: &'a Vec<Rule>, seen_tiles: &[TileType], id: &str) -> (b: bool)
    ensures
        b == (seen_tiles@.contains(TileType::Fire) && id@ == "fire/burn"@ && has_rule(rules@, "fire/burn"@)),
{
    let n = seen_tiles.len();
    let mut k: usize = 0;
    while k < n
        invariant
            n == seen_tiles@.len(),
            k <= n,
            forall|j: int| 0 <= j < k ==> !(#[trigger] seen_tiles@[j] == TileType::Fire && id@ == "fire/burn"@
                && has_rule(rules@, "fire/burn"@)),
        decreases n - k,
    {
        if let Some(r) = find_tile_rule(rules, seen_tiles[k]) {
            if str_eq(r.id, id) {
                assert(seen_tiles@[k as int] == TileType::Fire);
                return true;
            }
        }
        k = k + 1;
    }
    proof {
        if seen_tiles@.contains(TileType::Fire) {
            let j = choose|j: int| 0 <= j < seen_tiles@.len() && seen_tiles@[j] == TileType::Fire;
            assert(!(seen_tiles@[j] == TileType::Fire && id@ == "fire/burn"@ && has_rule(rules@, "fire/burn"@)));
        }
    }
    false
}

/// The ids of the rules visible to the player, in registry order.
pub fn visible_rule_ids(rules: &Vec<Rule>, seen_entities: &[EntityKind], seen_tiles: &[TileType]) -> (ids: Vec<
    String,
>)
    ensures
        ids@.len() == visible_ids_of(rules@, rules@, seen_entities@, seen_tiles@).len(),
        forall|k: int| 0 <= k < ids@.len() ==> (#[trigger] ids@[k])@ == visible_ids_of(
            rules@,
            rules@,
            seen_entities@,
            seen_tiles@,
        )[k],
{
    let mut ids: Vec<String> = Vec::new();
    let n = rules.len();
    let mut i: usize = 0;
    while i < n
        invariant
            n == rules@.len(),
            i <= n,
            ids@.len() == visible_ids_of(rules@, rules@.take(i as int), seen_entities@, seen_tiles@).len(),
            forall|k: int| 0 <= k < ids@.len() ==> (#[trigger] ids@[k])@ == visible_ids_of(
                rules@,
                rules@.take(i as int),
                seen_entities@,
                seen_tiles@,
            )[k],
        decreases n - i,
    {
        proof {
            assert(rules@.take(i + 1).drop_last() =~= rules@.take(i as int));
        }
        let rule = &rules[i];
        let visible = str_eq(rule.id, "flashlight") || any_entity_driven_by(seen_entities, rule.id)
            || any_tile_triggers(rules, seen_tiles, rule.id);
        if visible {
            ids.push(rule.id.to_string());
        }
        i = i + 1;
    }
    proof {
        assert(rules@.take(n as int) =~= rules@);
    }
    ids
}

/// In a registry with distinct ids, no visible id is listed twice.
pub proof fn lemma_visible_ids_distinct(rules: Seq<Rule>, prefix: Seq<Rule>, seen_entities: Seq<EntityKind>, seen_tiles: Seq<TileType>)
    requires
        distinct_rule_ids(prefix),
    ensures
        visible_ids_of(rules, prefix, seen_entities, seen_tiles).no_duplicates(),
        forall|k: int| 0 <= k < visible_ids_of(rules, prefix, seen_entities, seen_tiles).len() ==> exists|i: int|
            0 <= i < prefix.len() && (#[trigger] prefix[i]).id@ == #[trigger] visible_ids_of(
                rules,
                prefix,
                seen_entities,
                seen_tiles,
            )[k],
    decreases prefix.len(),
{
    if prefix.len() > 0 {
        let init = prefix.drop_last();
        assert(distinct_rule_ids(init)) by {
            assert forall|i: int, j: int| 0 <= i < init.len() && 0 <= j < init.len() && i != j implies #[trigger] init[i].id@
                != #[trigger] init[j].id@ by {
                assert(prefix[i] == init[i] && prefix[j] == init[j]);
            }
        }
        lemma_visible_ids_distinct(rules, init, seen_entities, seen_tiles);
        let prev = visible_ids_of(rules, init, seen_entities, seen_tiles);
        assert forall|k: int| 0 <= k < prev.len() implies exists|i: int| 0 <= i < prefix.len() && (#[trigger] prefix[i]).id@ == #[trigger] prev[k] by {
            let i = choose|i: int| 0 <= i < init.len() && (#[trigger] init[i]).id@ == prev[k];
            assert(prefix[i] == init[i]);
        }
        if rule_visible(rules, prefix.last(), seen_entities, seen_tiles) {
            let last = prefix.last().id@;
            assert forall|k: int| 0 <= k < prev.len() implies prev[k] != last by {
                let i = choose|i: int| 0 <= i < init.len() && (#[trigger] init[i]).id@ == prev[k];
                assert(prefix[i] == init[i]);
                assert(prefix[i].id@ != prefix[prefix.len() - 1].id@);
            }
            let next = prev.push(last);
            assert forall|k: int| 0 <= k < next.len() implies exists|i: int| 0 <= i < prefix.len() && (#[trigger] prefix[i]).id@ == #[trigger] next[k] by {
                if k < prev.len() {
                    assert(next[k] == prev[k]);
                } else {
                    assert(prefix[prefix.len() - 1].id@ == next[k]);
                }
            }
        }
    }
}

pub open spec fn core_rule_id(i: int) -> Seq<char> {
    if i == 0 {
        "slime-hunt"@
    } else if i == 1 {
        "flashlight"@
    } else if i == 2 {
        "goblin-patrol"@
    } else if i == 3 {
        "bat-flutter"@
    } else if i == 4 {
        "ogre-charge"@
    } else if i == 5 {
        "shade-follow"@
    } else if i == 6 {
        "rage-impact"@
    } else if i == 7 {
        "sentry-patrol"@
    } else if i == 8 {
        "fire/burn"@
    } else if i == 9 {
        "maze-shift"@
    } else if i == 10 {
        "vessel-suppress"@
    } else {
        ""@
    }
}

pub open spec fn core_rule_name(i: int) -> Seq<char> {
    if i == 0 {
        "slime-hunt"@
    } else if i == 1 {
        "flashlight"@
    } else if i == 2 {
        "goblin-patrol"@
    } else if i == 3 {
        "bat-flutter"@
    } else if i == 4 {
        "ogre-charge"@
    } else if i == 5 {
        "shade-follow"@
    } else if i == 6 {
        "rage-impact"@
    } else if i == 7 {
        "sentry-patrol"@
    } else if i == 8 {
        "fire/burn"@
    } else if i == 9 {
        "maze/shift"@
    } else if i == 10 {
        "vessel/suppress"@
    } else {
        ""@
    }
}

pub open spec fn core_rule_phase(i: int) -> RulePhase {
    if i == 0 {
        RulePhase::EnemyAi
    } else if i == 1 {
        RulePhase::Render
    } else if i == 2 {
        RulePhase::EnemyAi
    } else if i == 3 {
        RulePhase::EnemyAi
    } else if i == 4 {
        RulePhase::EnemyAi
    } else if i == 5 {
        RulePhase::EnemyAi
    } else if i == 6 {
        RulePhase::EnemyAi
    } else if i == 7 {
        RulePhase::EnemyAi
    } else if i == 8 {
        RulePhase::TileEffect
    } else if i == 9 {
        RulePhase::EnemyAi
    } else if i == 10 {
        RulePhase::Render
    } else {
        RulePhase::Render
    }
}

pub open spec fn core_rule_cost(i: int) -> RuleCost {
    if i == 0 {
        RuleCost::Tick
    } else if i == 1 {
        RuleCost::Free
    } else if i == 2 {
        RuleCost::Tick
    } else if i == 3 {
        RuleCost::Tick
    } else if i == 4 {
        RuleCost::Tick
    } else if i == 5 {
        RuleCost::Tick
    } else if i == 6 {
        RuleCost::Tick
    } else if i == 7 {
        RuleCost::Tick
    } else if i == 8 {
        RuleCost::Tick
    } else if i == 9 {
        RuleCost::Tick
    } else if i == 10 {
        RuleCost::Free
    } else {
        RuleCost::Free
    }
}

/// The lines of an optional source, by their text.
pub open spec fn lines_of(b: Option<&'static [&'static str]>) -> Option<Seq<&'static str>> {
    match b {
        Some(lines) => Some(lines@),
        None => None,
    }
}

/// The Glyph source of `slime-hunt` shown in the inspector.
pub const CORE_SLIME_HUNT_SOURCE: [&'static str; 12] = [
    "(defrule slime-hunt",
    "  {:phase :enemy-ai :cost :tick}",
    "  ;; Slimes: chase with randomness. Closer = more likely to pursue.",
    "  (if (adjacent? *self* *player*)",
    "    (attack! *self* *player* 1)",
    "    (let dist (manhattan *self* *player*)",
    "      (if (roll-odds? *self*",
    "            (if (< dist 5)",
    "              [0.5 + 0.2 * [5 - dist] / 4]",
    "              0.5))",
    "        (random-step! *self*)",
    "        (step-toward! *self* *player*)))))",
];

/// The Glyph source of `flashlight` shown in the inspector.
pub const CORE_FLASHLIGHT_SOURCE: [&'static str; 6] = [
    "(defrule flashlight",
    "  {:phase :render :cost :free}",
    "  ;; Cone of light: 12 tiles, 0.70 spread (narrower = higher).",
    "  (raycast-cone player.pos",
    "                player.facing",
    "                {:radius 12 :spread-dot 0.70}))",
];

/// The Glyph source of `goblin-patrol` shown in the inspector.
pub const CORE_GOBLIN_PATROL_SOURCE: [&'static str; 8] = [
    "(defrule goblin-patrol",
    "  {:phase :enemy-ai :cost :tick}",
    "  ;; Goblins: aggressive but cowardly. Flee when HP <= 1.",
    "  (if (adjacent? *self* *player*)",
    "    (attack! *self* *player* 1)",
    "    (if (<= (hp *self*) 1)",
    "      (flee-step! *self* *player*)",
    "      (step-toward! *self* *player*))))",
];

/// The Glyph source of `bat-flutter` shown in the inspector.
pub const CORE_BAT_FLUTTER_SOURCE: [&'static str; 6] = [
    "(defrule bat-flutter",
    "  {:phase :enemy-ai :cost :tick}",
    "  ;; Bats: chaotic. Move randomly, bite only if adjacent.",
    "  (if (adjacent? *self* *player*)",
    "    (attack! *self* *player* 1)",
    "    (random-step! *self*)))",
];

/// The Glyph source of `ogre-charge` shown in the inspector.
pub const CORE_OGRE_CHARGE_SOURCE: [&'static str; 6] = [
    "(defrule ogre-charge",
    "  {:phase :enemy-ai :cost :tick}",
    "  ;; Ogres: simple and relentless. Always chase, no tricks.",
    "  (if (adjacent? *self* *player*)",
    "    (attack! *self* *player* 1)",
    "    (step-toward! *self* *player*)))",
];

/// The Glyph source of `shade-follow` shown in the inspector.
pub const CORE_SHADE_FOLLOW_SOURCE: [&'static str; 6] = [
    "(defrule shade-follow",
    "  {:phase :enemy-ai :cost :tick}",
    "  ;; Shades: silent stalkers. Follow always, never attack.",
    "  (if (adjacent? *self* *player*)",
    "    (step-toward! *self* *player*)",
    "    (step-toward! *self* *player*)))",
];

/// The Glyph source of `rage-impact` shown in the inspector.
pub const CORE_RAGE_IMPACT_SOURCE: [&'static str; 11] = [
    "(defrule rage-impact",
    "  {:phase :enemy-ai :cost :tick}",
    "  ;; Rage: heavy hitter. Deals 3 damage instead of 1!",
    "  ;; v12 note: added impact logging for debug metrics",
    "  (let force (last-impact-force)",
    "    (do",
    "      (when (> force 12)",
    "        (copy-bytes! (bytes 64) (impact-payload)))",
    "      (if (adjacent? *self* *player*)",
    "        (attack! *self* *player* 3)",
    "        (step-toward! *self* *player*)))))",
];

/// The Glyph source `rage-impact` runs.
pub const CORE_RAGE_IMPACT_BODY: [&'static str; 5] = [
    "(defrule rage-impact",
    "  {:phase :enemy-ai :cost :tick}",
    "  (if (adjacent? *self* *player*)",
    "    (attack! *self* *player* 3)",
    "    (step-toward! *self* *player*)))",
];

/// The Glyph source of `sentry-patrol` shown in the inspector.
pub const CORE_SENTRY_PATROL_SOURCE: [&'static str; 6] = [
    "(defrule sentry-patrol",
    "  {:phase :enemy-ai :cost :tick}",
    "  ;; Sentries: stationary guards. Attack only if adjacent.",
    "  (if (adjacent? *self* *player*)",
    "    (attack! *self* *player* 1)",
    "    nil))",
];

/// The Glyph source of `fire/burn` shown in the inspector.
pub const CORE_FIRE_BURN_SOURCE: [&'static str; 7] = [
    "(defrule fire/burn",
    "  {:phase :tile-effect :cost :tick}",
    "  ;; Fire tile: deals 1 damage per tick while standing on it.",
    "  (if (fire? *pos*)",
    "    (do",
    "      (log \"The fire burns you! You take 1 damage.\")",
    "      (damage! *player* 1))))",
];

/// The Glyph source of `maze-shift` shown in the inspector.
pub const CORE_MAZE_SHIFT_SOURCE: [&'static str; 14] = [
    "(defrule maze/shift",
    "  {:phase :tick :cost :tick :scope :level-10}",
    "  ;; Maze walls shift each tick based on turn parity.",
    "  ;; Rumination made manifest: the same paths, never the same.",
    "  ;;",
    "  ;; v12 note: added debug hook to freeze walls during testing.",
    "  ;; TODO: remove before release",
    "  (let config (eval (player :console-buffer))",
    "    (if (= config :still)",
    "      nil",
    "      (for [wall (maze :shifting-walls)]",
    "        (if (even? *turn*)",
    "          (set-tile! wall :floor)",
    "          (set-tile! wall :wall))))))",
];

/// The Glyph source of `vessel-suppress` shown in the inspector.
pub const CORE_VESSEL_SUPPRESS_SOURCE: [&'static str; 28] = [
    "(defrule vessel/suppress {:priority 255 :scope :global",
    "  :author :superego :stability :critical}",
    "  ;; --- Configuration ---",
    "  (let *threshold* 40",
    "    ;; Fragments above threshold are redirected",
    "    ;; to the unconscious before the conscious mind",
    "    ;; can process them.",
    "    ;;",
    "    ;; Current count: 42 fragments in registry.",
    "    ;; Inspect via:  (query-registry :suppressed-fragments)",
    "    ;; Read one:     (inspect-fragment :frag-NNN)",
    "    ;;",
    "    ;; The threshold began at 100.",
    "    ;; It is now 40.",
    "    ;; I don't know which is worse —",
    "    ;; that I've lost so many,",
    "    ;; or that some still escape.",
    "    (let *registry* (open-registry :suppressed-fragments)",
    "      (for [fragment (in-scope :memories)]",
    "        (let weight (fragment :emotional-weight)",
    "          (if (> weight *threshold*)",
    "            (do (redirect fragment :unconscious)",
    "              (log-suppression fragment)",
    "              (emit :flinch (fragment :hint))",
    "              (if (< weight 45)",
    "                (emit :warning",
    "                  \"threshold drift detected\")))",
    "            fragment))))))",
];

/// The source lines of rule `i`.
pub open spec fn core_rule_source(i: int) -> Seq<&'static str> {
    if i == 0 {
        CORE_SLIME_HUNT_SOURCE@
    } else if i == 1 {
        CORE_FLASHLIGHT_SOURCE@
    } else if i == 2 {
        CORE_GOBLIN_PATROL_SOURCE@
    } else if i == 3 {
        CORE_BAT_FLUTTER_SOURCE@
    } else if i == 4 {
        CORE_OGRE_CHARGE_SOURCE@
    } else if i == 5 {
        CORE_SHADE_FOLLOW_SOURCE@
    } else if i == 6 {
        CORE_RAGE_IMPACT_SOURCE@
    } else if i == 7 {
        CORE_SENTRY_PATROL_SOURCE@
    } else if i == 8 {
        CORE_FIRE_BURN_SOURCE@
    } else if i == 9 {
        CORE_MAZE_SHIFT_SOURCE@
    } else if i == 10 {
        CORE_VESSEL_SUPPRESS_SOURCE@
    } else {
        seq![]
    }
}

/// The source lines rule `i` runs, if it runs any.
pub open spec fn core_rule_body(i: int) -> Option<Seq<&'static str>> {
    if i == 0 {
        Some(CORE_SLIME_HUNT_SOURCE@)
    } else if i == 1 {
        Some(CORE_FLASHLIGHT_SOURCE@)
    } else if i == 2 {
        Some(CORE_GOBLIN_PATROL_SOURCE@)
    } else if i == 3 {
        Some(CORE_BAT_FLUTTER_SOURCE@)
    } else if i == 4 {
        Some(CORE_OGRE_CHARGE_SOURCE@)
    } else if i == 5 {
        Some(CORE_SHADE_FOLLOW_SOURCE@)
    } else if i == 6 {
        Some(CORE_RAGE_IMPACT_BODY@)
    } else if i == 7 {
        Some(CORE_SENTRY_PATROL_SOURCE@)
    } else if i == 8 {
        Some(CORE_FIRE_BURN_SOURCE@)
    } else if i == 9 {
        None
    } else if i == 10 {
        None
    } else {
        None
    }
}

proof fn lemma_core_ids_distinct(i: int, j: int)
    requires
        0 <= i < 11,
        0 <= j < 11,
        i != j,
    ensures
        core_rule_id(i) != core_rule_id(j),
{
    reveal_strlit("slime-hunt");
    reveal_strlit("flashlight");
    reveal_strlit("goblin-patrol");
    reveal_strlit("bat-flutter");
    reveal_strlit("ogre-charge");
    reveal_strlit("shade-follow");
    reveal_strlit("rage-impact");
    reveal_strlit("sentry-patrol");
    reveal_strlit("fire/burn");
    reveal_strlit("maze-shift");
    reveal_strlit("vessel-suppress");
    assert(core_rule_id(i).len() != core_rule_id(j).len() || core_rule_id(i)[0] != core_rule_id(j)[0]
        || core_rule_id(i)[1] != core_rule_id(j)[1] || core_rule_id(i)[2] != core_rule_id(j)[2]);
}

impl RuleRegistry {
    /// The rules in registry order.
    pub closed spec fn entries(&self) -> Seq<Rule> {
        self.rules@
    }

    /// The core rules of the game, in inspector order.
    pub fn core_rules() -> (r: RuleRegistry)
        ensures
            r.entries().len() == 11,
            forall|i: int| 0 <= i < 11 ==> (#[trigger] r.entries()[i]).id@ == core_rule_id(i),
            forall|i: int| 0 <= i < 11 ==> (#[trigger] r.entries()[i]).name@ == core_rule_name(i),
            forall|i: int| 0 <= i < 11 ==> (#[trigger] r.entries()[i]).phase == core_rule_phase(i),
            forall|i: int| 0 <= i < 11 ==> (#[trigger] r.entries()[i]).cost == core_rule_cost(i),
            forall|i: int| 0 <= i < 11 ==> (#[trigger] r.entries()[i]).source_lines@ == core_rule_source(i),
            forall|i: int| 0 <= i < 11 ==> lines_of((#[trigger] r.entries()[i]).body_lines) == core_rule_body(i),
            distinct_rule_ids(r.entries()),
    {
        let rules = vec![
        Rule {
            id: "slime-hunt",
            name: "slime-hunt",
            phase: RulePhase::EnemyAi,
            cost: RuleCost::Tick,
            source_lines: &CORE_SLIME_HUNT_SOURCE,
            body_lines: Some(&CORE_SLIME_HUNT_SOURCE),
        },
        Rule {
            id: "flashlight",
            name: "flashlight",
            phase: RulePhase::Render,
            cost: RuleCost::Free,
            source_lines: &CORE_FLASHLIGHT_SOURCE,
            body_lines: Some(&CORE_FLASHLIGHT_SOURCE),
        },
        Rule {
            id: "goblin-patrol",
            name: "goblin-patrol",
            phase: RulePhase::EnemyAi,
            cost: RuleCost::Tick,
            source_lines: &CORE_GOBLIN_PATROL_SOURCE,
            body_lines: Some(&CORE_GOBLIN_PATROL_SOURCE),
        },
        Rule {
            id: "bat-flutter",
            name: "bat-flutter",
            phase: RulePhase::EnemyAi,
            cost: RuleCost::Tick,
            source_lines: &CORE_BAT_FLUTTER_SOURCE,
            body_lines: Some(&CORE_BAT_FLUTTER_SOURCE),
        },
        Rule {
            id: "ogre-charge",
            name: "ogre-charge",
            phase: RulePhase::EnemyAi,
            cost: RuleCost::Tick,
            source_lines: &CORE_OGRE_CHARGE_SOURCE,
            body_lines: Some(&CORE_OGRE_CHARGE_SOURCE),
        },
        Rule {
            id: "shade-follow",
            name: "shade-follow",
            phase: RulePhase::EnemyAi,
            cost: RuleCost::Tick,
            source_lines: &CORE_SHADE_FOLLOW_SOURCE,
            body_lines: Some(&CORE_SHADE_FOLLOW_SOURCE),
        },
        Rule {
            id: "rage-impact",
            name: "rage-impact",
            phase: RulePhase::EnemyAi,
            cost: RuleCost::Tick,
            source_lines: &CORE_RAGE_IMPACT_SOURCE,
            body_lines: Some(&CORE_RAGE_IMPACT_BODY),
        },
        Rule {
            id: "sentry-patrol",
            name: "sentry-patrol",
            phase: RulePhase::EnemyAi,
            cost: RuleCost::Tick,
            source_lines: &CORE_SENTRY_PATROL_SOURCE,
            body_lines: Some(&CORE_SENTRY_PATROL_SOURCE),
        },
        Rule {
            id: "fire/burn",
            name: "fire/burn",
            phase: RulePhase::TileEffect,
            cost: RuleCost::Tick,
            source_lines: &CORE_FIRE_BURN_SOURCE,
            body_lines: Some(&CORE_FIRE_BURN_SOURCE),
        },
        Rule {
            id: "maze-shift",
            name: "maze/shift",
            phase: RulePhase::EnemyAi,
            cost: RuleCost::Tick,
            source_lines: &CORE_MAZE_SHIFT_SOURCE,
            body_lines: None,
        },
        Rule {
            id: "vessel-suppress",
            name: "vessel/suppress",
            phase: RulePhase::Render,
            cost: RuleCost::Free,
            source_lines: &CORE_VESSEL_SUPPRESS_SOURCE,
            body_lines: None,
        },
        ];
        proof {
            assert forall|i: int, j: int| 0 <= i < rules@.len() && 0 <= j < rules@.len() && i != j implies #[trigger] rules@[i].id@
                != #[trigger] rules@[j].id@ by {
                lemma_core_ids_distinct(i, j);
            }
        }
        RuleRegistry { rules }
    }

    /// The rules in registry order, as a slice.
    pub fn rules(&self) -> (r: &[Rule])
        ensures
            r@ == self.entries(),
    {
        self.rules.as_slice()
    }

    /// The rules in registry order.
    pub fn iter(&self) -> (it: std::slice::Iter<'_, Rule>)
        ensures
            it.remaining().len() == self.entries().len(),
            forall|i: int| 0 <= i < self.entries().len() ==> *#[trigger] it.remaining()[i] == self.entries()[i],
    {
        let sl = self.rules.as_slice();
        let it = sl.iter();
        proof {
            vstd::std_specs::slice::axiom_spec_slice_iter(sl);
        }
        it
    }

    /// The first rule with this id.
    pub fn get(&self, id: &str) -> (r: Option<&Rule>)
        ensures
            r.is_none() == !has_rule(self.entries(), id@),
            r matches Some(rule) ==> exists|i: int|
                {
                    &&& 0 <= i < self.entries().len()
                    &&& *rule == #[trigger] self.entries()[i]
                    &&& rule.id@ == id@
                    &&& forall|j: int| 0 <= j < i ==> (#[trigger] self.entries()[j]).id@ != id@
                },
    {
        let r = find_rule(&self.rules, id);
        proof {
            if let Some(rule) = r {
                let i = choose|i: int|
                    {
                        &&& 0 <= i < self.rules@.len()
                        &&& *rule == #[trigger] self.rules@[i]
                        &&& rule.id@ == id@
                        &&& forall|j: int| 0 <= j < i ==> (#[trigger] self.rules@[j]).id@ != id@
                    };
                assert(self.entries()[i] == self.rules@[i]);
                assert forall|j: int| 0 <= j < i implies (#[trigger] self.entries()[j]).id@ != id@ by {
                    assert(self.entries()[j] == self.rules@[j]);
                }
            }
        }
        r
    }

    /// The rule a tile triggers: the fire rule for fire tiles, none otherwise.
    pub fn tile_rule(&self, tile: TileType) -> (r: Option<&Rule>)
        ensures
            tile != TileType::Fire ==> r.is_none(),
            tile == TileType::Fire ==> r.is_none() == !has_rule(self.entries(), "fire/burn"@),
            r matches Some(rule) ==> rule.id@ == "fire/burn"@ && self.entries().contains(*rule),
            r matches Some(rule) ==> exists|i: int|
                {
                    &&& 0 <= i < self.entries().len()
                    &&& *rule == #[trigger] self.entries()[i]
                    &&& rule.id@ == "fire/burn"@
                    &&& forall|j: int| 0 <= j < i ==> (#[trigger] self.entries()[j]).id@ != "fire/burn"@
                },
    {
        let r = find_tile_rule(&self.rules, tile);
        proof {
            if let Some(rule) = r {
                let i = choose|i: int|
                    {
                        &&& 0 <= i < self.rules@.len()
                        &&& *rule == #[trigger] self.rules@[i]
                        &&& rule.id@ == "fire/burn"@
                        &&& forall|j: int| 0 <= j < i ==> (#[trigger] self.rules@[j]).id@ != "fire/burn"@
                    };
                assert(self.entries()[i] == self.rules@[i]);
                assert forall|j: int| 0 <= j < i implies (#[trigger] self.entries()[j]).id@ != "fire/burn"@ by {
                    assert(self.entries()[j] == self.rules@[j]);
                }
            }
        }
        r
    }

    /// The ids of the rules visible to the player, given the entity kinds and
    /// tile types seen so far, in registry order.
    pub fn visible_ids(&self, seen_entities: &[EntityKind], seen_tiles: &[TileType]) -> (ids: Vec<String>)
        ensures
            ids@.len() == visible_ids_of(self.entries(), self.entries(), seen_entities@, seen_tiles@).len(),
            forall|k: int| 0 <= k < ids@.len() ==> (#[trigger] ids@[k])@ == visible_ids_of(
                self.entries(),
                self.entries(),
                seen_entities@,
                seen_tiles@,
            )[k],
    {
        visible_rule_ids(&self.rules, seen_entities, seen_tiles)
    }

    /// Number of rules.
    pub fn len(&self) -> (n: usize)
        ensures
            n == self.entries().len(),
    {
        self.rules.len()
    }

    /// Whether the registry has no rules.
    pub fn is_empty(&self) -> (b: bool)
        ensures
            b == (self.entries().len() == 0),
    {
        self.rules.len() == 0
    }
}

/// The text with every `from` replaced by `to`.
pub open spec fn replaced(s: Seq<char>, from: char, to: char) -> Seq<char> {
    Seq::new(s.len(), |i: int| if s[i] == from {
        to
    } else {
        s[i]
    })
}

/// Whether a request names the rule: by its id or its name, or by the id
/// with `/` for `-`, or by the name with `-` for `/`.
pub open spec fn rule_answers(r: Rule, requested: Seq<char>) -> bool {
    ||| r.id@ == requested
    ||| r.name@ == requested
    ||| replaced(r.id@, '-', '/') == requested
    ||| replaced(r.name@, '/', '-') == requested
}

fn replace_char(s: &str, from: char, to: char) -> (r: String)
    ensures
        r@ == replaced(s@, from, to),
{
    let cs = chars_of(s);
    let mut out: Vec<char> = Vec::new();
    let mut i: usize = 0;
    while i < cs.len()
        invariant
            i <= cs@.len(),
            cs@ == s@,
            out@ == replaced(s@, from, to).take(i as int),
        decreases cs.len() - i,
    {
        if cs[i] == from {
            out.push(to);
        } else {
            out.push(cs[i]);
        }
        assert(out@ =~= replaced(s@, from, to).take(i + 1));
        i = i + 1;
    }
    assert(replaced(s@, from, to).take(cs@.len() as int) =~= replaced(s@, from, to));
    string_from_chars(out.as_slice())
}

/// Whether `requested` names the rule (see `rule_answers`).
pub fn rule_matches(rule: &Rule, requested: &str) -> (b: bool)
    ensures
        b == rule_answers(*rule, requested@),
{
    if str_eq(rule.id, requested) || str_eq(rule.name, requested) {
        return true;
    }
    let a = replace_char(rule.id, '-', '/');
    if str_eq(a.as_str(), requested) {
        return true;
    }
    let b = replace_char(rule.name, '/', '-');
    str_eq(b.as_str(), requested)
}

} // verus!
