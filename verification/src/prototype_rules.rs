//! The rule registry of the terminal prototype: the ten rules it ships,
//! sharing the rule types and lookups of the main registry.

use vstd::prelude::*;
use vstd::std_specs::iter::IteratorSpec;

use crate::entity::EntityKind;
use crate::map::TileType;
pub use crate::rules::{Rule, RuleCost, RulePhase};
use crate::rules::{distinct_rule_ids, find_rule, find_tile_rule, has_rule, lines_of, visible_ids_of, visible_rule_ids};

verus! {

/// The prototype's collection of rules.
#[derive(Clone, Debug)]
pub struct RuleRegistry {
    rules: Vec<Rule>,
}

pub open spec fn prototype_rule_id(i: int) -> Seq<char> {
    if i == 0 {
        "slime-hunt"@
    } else if i == 1 {
        "flashlight"@
    } else if i == 2 {
        "goblin-patrol"@
    } else if i == 3 {
        "bat-flutter"@
    } else if i == 4 {
        "ogre-charge"@
    } else if i == 5 {
        "shade-follow"@
    } else if i == 6 {
        "rage-impact"@
    } else if i == 7 {
        "sentry-patrol"@
    } else if i == 8 {
        "fire/burn"@
    } else if i == 9 {
        "vessel-suppress"@
    } else {
        ""@
    }
}

pub open spec fn prototype_rule_name(i: int) -> Seq<char> {
    if i == 0 {
        "slime-hunt"@
    } else if i == 1 {
        "flashlight"@
    } else if i == 2 {
        "goblin-patrol"@
    } else if i == 3 {
        "bat-flutter"@
    } else if i == 4 {
        "ogre-charge"@
    } else if i == 5 {
        "shade-follow"@
    } else if i == 6 {
        "rage-impact"@
    } else if i == 7 {
        "sentry-patrol"@
    } else if i == 8 {
        "fire/burn"@
    } else if i == 9 {
        "vessel/suppress"@
    } else {
        ""@
    }
}

pub open spec fn prototype_rule_phase(i: int) -> RulePhase {
    if i == 0 {
        RulePhase::EnemyAi
    } else if i == 1 {
        RulePhase::Render
    } else if i == 2 {
        RulePhase::EnemyAi
    } else if i == 3 {
        RulePhase::EnemyAi
    } else if i == 4 {
        RulePhase::EnemyAi
    } else if i == 5 {
        RulePhase::EnemyAi
    } else if i == 6 {
        RulePhase::EnemyAi
    } else if i == 7 {
        RulePhase::EnemyAi
    } else if i == 8 {
        RulePhase::TileEffect
    } else if i == 9 {
        RulePhase::Render
    } else {
        RulePhase::Render
    }
}

pub open spec fn prototype_rule_cost(i: int) -> RuleCost {
    if i == 0 {
        RuleCost::Tick
    } else if i == 1 {
        RuleCost::Free
    } else if i == 2 {
        RuleCost::Tick
    } else if i == 3 {
        RuleCost::Tick
    } else if i == 4 {
        RuleCost::Tick
    } else if i == 5 {
        RuleCost::Tick
    } else if i == 6 {
        RuleCost::Tick
    } else if i == 7 {
        RuleCost::Tick
    } else if i == 8 {
        RuleCost::Tick
    } else if i == 9 {
        RuleCost::Free
    } else {
        RuleCost::Free
    }
}

/// The Glyph source of `slime-hunt` shown in the inspector.
pub const PROTO_SLIME_HUNT_SOURCE: [&'static str; 11] = [
    "(defrule slime-hunt",
    "  {:phase :enemy-ai :cost :tick}",
    "  (if (adjacent? *self* *player*)",
    "    (attack! *self* *player* 1)",
    "    (let dist (manhattan *self* *player*)",
    "      (if (roll-odds? *self*",
    "            (if (< dist 5)",
    "              [0.5 + 0.2 * [5 - dist] / 4]",
    "              0.5))",
    "        (random-step! *self*)",
    "        (step-toward! *self* *player*)))))",
];

/// The Glyph source of `flashlight` shown in the inspector.
pub const PROTO_FLASHLIGHT_SOURCE: [&'static str; 5] = [
    "(defrule flashlight",
    "  {:phase :render :cost :free}",
    "  (raycast-cone player.pos",
    "                player.facing",
    "                {:radius 12 :spread-dot 0.70}))",
];

/// The Glyph source of `goblin-patrol` shown in the inspector.
pub const PROTO_GOBLIN_PATROL_SOURCE: [&'static str; 7] = [
    "(defrule goblin-patrol",
    "  {:phase :enemy-ai :cost :tick}",
    "  (if (adjacent? *self* *player*)",
    "    (attack! *self* *player* 1)",
    "    (if (<= (hp *self*) 1)",
    "      (flee-step! *self* *player*)",
    "      (step-toward! *self* *player*))))",
];

/// The Glyph source of `bat-flutter` shown in the inspector.
pub const PROTO_BAT_FLUTTER_SOURCE: [&'static str; 5] = [
    "(defrule bat-flutter",
    "  {:phase :enemy-ai :cost :tick}",
    "  (if (adjacent? *self* *player*)",
    "    (attack! *self* *player* 1)",
    "    (random-step! *self*)))",
];

/// The Glyph source of `ogre-charge` shown in the inspector.
pub const PROTO_OGRE_CHARGE_SOURCE: [&'static str; 5] = [
    "(defrule ogre-charge",
    "  {:phase :enemy-ai :cost :tick}",
    "  (if (adjacent? *self* *player*)",
    "    (attack! *self* *player* 1)",
    "    (step-toward! *self* *player*)))",
];

/// The Glyph source of `shade-follow` shown in the inspector.
pub const PROTO_SHADE_FOLLOW_SOURCE: [&'static str; 5] = [
    "(defrule shade-follow",
    "  {:phase :enemy-ai :cost :tick}",
    "  (if (adjacent? *self* *player*)",
    "    (step-toward! *self* *player*)",
    "    (step-toward! *self* *player*)))",
];

/// The Glyph source of `rage-impact` shown in the inspector.
pub const PROTO_RAGE_IMPACT_SOURCE: [&'static str; 5] = [
    "(defrule rage-impact",
    "  {:phase :enemy-ai :cost :tick}",
    "  (if (adjacent? *self* *player*)",
    "    (attack! *self* *player* 3)",
    "    (step-toward! *self* *player*)))",
];

/// The Glyph source of `sentry-patrol` shown in the inspector.
pub const PROTO_SENTRY_PATROL_SOURCE: [&'static str; 5] = [
    "(defrule sentry-patrol",
    "  {:phase :enemy-ai :cost :tick}",
    "  (if (adjacent? *self* *player*)",
    "    (attack! *self* *player* 1)",
    "    nil))",
];

/// The Glyph source of `fire/burn` shown in the inspector.
pub const PROTO_FIRE_BURN_SOURCE: [&'static str; 9] = [
    "(defrule fire/burn",
    "  {:phase :tile-effect :cost :tick}",
    "  ;; Checks fire cache built at start of each tick.",
    "  ;; Cache mutated mid-tick (e.g. Vapor Canteen)",
    "  ;; does not revalidate until next tick.",
    "  (if (fire? *pos*)",
    "    (do",
    "      (log \"The fire burns you! You take 1 damage.\")",
    "      (damage! *player* 1))))",
];

/// The Glyph source `fire/burn` runs.
pub const PROTO_FIRE_BURN_BODY: [&'static str; 6] = [
    "(defrule fire/burn",
    "  {:phase :tile-effect :cost :tick}",
    "  (if (fire? *pos*)",
    "    (do",
    "      (log \"The fire burns you! You take 1 damage.\")",
    "      (damage! *player* 1))))",
];

/// The Glyph source of `vessel-suppress` shown in the inspector.
pub const PROTO_VESSEL_SUPPRESS_SOURCE: [&'static str; 28] = [
    "(defrule vessel/suppress {:priority 255 :scope :global",
    "  :author :superego :stability :critical}",
    "  ;; --- Configuration ---",
    "  (let [*threshold* 40]",
    "    ;; Fragments above threshold are redirected",
    "    ;; to the unconscious before the conscious mind",
    "    ;; can process them.",
    "    ;;",
    "    ;; Current count: 42 fragments in registry.",
    "    ;; Inspect via:  (query-registry :suppressed-fragments)",
    "    ;; Read one:     (inspect-fragment :frag-NNN)",
    "    ;;",
    "    ;; The threshold began at 100.",
    "    ;; It is now 40.",
    "    ;; I don't know which is worse —",
    "    ;; that I've lost so many,",
    "    ;; or that some still escape.",
    "    (let [*registry* (open-registry :suppressed-fragments)]",
    "      (for [fragment (in-scope :memories)]",
    "        (let [weight (fragment :emotional-weight)]",
    "          (if (> weight *threshold*)",
    "            (do (redirect fragment :unconscious)",
    "              (log-suppression fragment)",
    "              (emit :flinch (fragment :hint))",
    "              (if (< weight 45)",
    "                (emit :warning",
    "                  \"threshold drift detected\")))",
    "            fragment))))))",
];

/// The source lines of rule `i`.
pub open spec fn prototype_rule_source(i: int) -> Seq<&'static str> {
    if i == 0 {
        PROTO_SLIME_HUNT_SOURCE@
    } else if i == 1 {
        PROTO_FLASHLIGHT_SOURCE@
    } else if i == 2 {
        PROTO_GOBLIN_PATROL_SOURCE@
    } else if i == 3 {
        PROTO_BAT_FLUTTER_SOURCE@
    } else if i == 4 {
        PROTO_OGRE_CHARGE_SOURCE@
    } else if i == 5 {
        PROTO_SHADE_FOLLOW_SOURCE@
    } else if i == 6 {
        PROTO_RAGE_IMPACT_SOURCE@
    } else if i == 7 {
        PROTO_SENTRY_PATROL_SOURCE@
    } else if i == 8 {
        PROTO_FIRE_BURN_SOURCE@
    } else if i == 9 {
        PROTO_VESSEL_SUPPRESS_SOURCE@
    } else {
        seq![]
    }
}

/// The source lines rule `i` runs, if it runs any.
pub open spec fn prototype_rule_body(i: int) -> Option<Seq<&'static str>> {
    if i == 0 {
        Some(PROTO_SLIME_HUNT_SOURCE@)
    } else if i == 1 {
        Some(PROTO_FLASHLIGHT_SOURCE@)
    } else if i == 2 {
        Some(PROTO_GOBLIN_PATROL_SOURCE@)
    } else if i == 3 {
        Some(PROTO_BAT_FLUTTER_SOURCE@)
    } else if i == 4 {
        Some(PROTO_OGRE_CHARGE_SOURCE@)
    } else if i == 5 {
        Some(PROTO_SHADE_FOLLOW_SOURCE@)
    } else if i == 6 {
        Some(PROTO_RAGE_IMPACT_SOURCE@)
    } else if i == 7 {
        Some(PROTO_SENTRY_PATROL_SOURCE@)
    } else if i == 8 {
        Some(PROTO_FIRE_BURN_BODY@)
    } else if i == 9 {
        None
    } else {
        None
    }
}

proof fn lemma_prototype_ids_distinct(i: int, j: int)
    requires
        0 <= i < 10,
        0 <= j < 10,
        i != j,
    ensures
        prototype_rule_id(i) != prototype_rule_id(j),
{
    reveal_strlit("slime-hunt");
    reveal_strlit("flashlight");
    reveal_strlit("goblin-patrol");
    reveal_strlit("bat-flutter");
    reveal_strlit("ogre-charge");
    reveal_strlit("shade-follow");
    reveal_strlit("rage-impact");
    reveal_strlit("sentry-patrol");
    reveal_strlit("fire/burn");
    reveal_strlit("vessel-suppress");
    assert(prototype_rule_id(i).len() != prototype_rule_id(j).len() || prototype_rule_id(i)[0] != prototype_rule_id(j)[0]
        || prototype_rule_id(i)[1] != prototype_rule_id(j)[1] || prototype_rule_id(i)[2] != prototype_rule_id(j)[2]);
}

impl RuleRegistry {
    /// The rules in registry order.
    pub closed spec fn entries(&self) -> Seq<Rule> {
        self.rules@
    }

    /// The prototype's rules, in inspector order.
    pub fn core_rules() -> (r: RuleRegistry)
        ensures
            r.entries().len() == 10,
            forall|i: int| 0 <= i < 10 ==> (#[trigger] r.entries()[i]).id@ == prototype_rule_id(i),
            forall|i: int| 0 <= i < 10 ==> (#[trigger] r.entries()[i]).name@ == prototype_rule_name(i),
            forall|i: int| 0 <= i < 10 ==> (#[trigger] r.entries()[i]).phase == prototype_rule_phase(i),
            forall|i: int| 0 <= i < 10 ==> (#[trigger] r.entries()[i]).cost == prototype_rule_cost(i),
            forall|i: int| 0 <= i < 10 ==> (#[trigger] r.entries()[i]).source_lines@ == prototype_rule_source(i),
            forall|i: int| 0 <= i < 10 ==> lines_of((#[trigger] r.entries()[i]).body_lines) == prototype_rule_body(i),
            distinct_rule_ids(r.entries()),
    {
        let rules = vec![
        Rule {
            id: "slime-hunt",
            name: "slime-hunt",
            phase: RulePhase::EnemyAi,
            cost: RuleCost::Tick,
            source_lines: &PROTO_SLIME_HUNT_SOURCE,
            body_lines: Some(&PROTO_SLIME_HUNT_SOURCE),
        },
        Rule {
            id: "flashlight",
            name: "flashlight",
            phase: RulePhase::Render,
            cost: RuleCost::Free,
            source_lines: &PROTO_FLASHLIGHT_SOURCE,
            body_lines: Some(&PROTO_FLASHLIGHT_SOURCE),
        },
        Rule {
            id: "goblin-patrol",
            name: "goblin-patrol",
            phase: RulePhase::EnemyAi,
            cost: RuleCost::Tick,
            source_lines: &PROTO_GOBLIN_PATROL_SOURCE,
            body_lines: Some(&PROTO_GOBLIN_PATROL_SOURCE),
        },
        Rule {
            id: "bat-flutter",
            name: "bat-flutter",
            phase: RulePhase::EnemyAi,
            cost: RuleCost::Tick,
            source_lines: &PROTO_BAT_FLUTTER_SOURCE,
            body_lines: Some(&PROTO_BAT_FLUTTER_SOURCE),
        },
        Rule {
            id: "ogre-charge",
            name: "ogre-charge",
            phase: RulePhase::EnemyAi,
            cost: RuleCost::Tick,
            source_lines: &PROTO_OGRE_CHARGE_SOURCE,
            body_lines: Some(&PROTO_OGRE_CHARGE_SOURCE),
        },
        Rule {
            id: "shade-follow",
            name: "shade-follow",
            phase: RulePhase::EnemyAi,
            cost: RuleCost::Tick,
            source_lines: &PROTO_SHADE_FOLLOW_SOURCE,
            body_lines: Some(&PROTO_SHADE_FOLLOW_SOURCE),
        },
        Rule {
            id: "rage-impact",
            name: "rage-impact",
            phase: RulePhase::EnemyAi,
            cost: RuleCost::Tick,
            source_lines: &PROTO_RAGE_IMPACT_SOURCE,
            body_lines: Some(&PROTO_RAGE_IMPACT_SOURCE),
        },
        Rule {
            id: "sentry-patrol",
            name: "sentry-patrol",
            phase: RulePhase::EnemyAi,
            cost: RuleCost::Tick,
            source_lines: &PROTO_SENTRY_PATROL_SOURCE,
            body_lines: Some(&PROTO_SENTRY_PATROL_SOURCE),
        },
        Rule {
            id: "fire/burn",
            name: "fire/burn",
            phase: RulePhase::TileEffect,
            cost: RuleCost::Tick,
            source_lines: &PROTO_FIRE_BURN_SOURCE,
            body_lines: Some(&PROTO_FIRE_BURN_BODY),
        },
        Rule {
            id: "vessel-suppress",
            name: "vessel/suppress",
            phase: RulePhase::Render,
            cost: RuleCost::Free,
            source_lines: &PROTO_VESSEL_SUPPRESS_SOURCE,
            body_lines: None,
        },
        ];
        proof {
            assert forall|i: int, j: int| 0 <= i < rules@.len() && 0 <= j < rules@.len() && i != j implies #[trigger] rules@[i].id@
                != #[trigger] rules@[j].id@ by {
                lemma_prototype_ids_distinct(i, j);
            }
        }
        RuleRegistry { rules }
    }

    /// The rules in registry order.
    pub fn iter(&self) -> (it: std::slice::Iter<'_, Rule>)
        ensures
            it.remaining().len() == self.entries().len(),
            forall|i: int| 0 <= i < self.entries().len() ==> *#[trigger] it.remaining()[i] == self.entries()[i],
    {
        let sl = self.rules.as_slice();
        let it = sl.iter();
        proof {
            vstd::std_specs::slice::axiom_spec_slice_iter(sl);
        }
        it
    }

    /// The first rule with this id.
    pub fn get(&self, id: &str) -> (r: Option<&Rule>)
        ensures
            r.is_none() == !has_rule(self.entries(), id@),
            r matches Some(rule) ==> exists|i: int|
                {
                    &&& 0 <= i < self.entries().len()
                    &&& *rule == #[trigger] self.entries()[i]
                    &&& rule.id@ == id@
                    &&& forall|j: int| 0 <= j < i ==> (#[trigger] self.entries()[j]).id@ != id@
                },
    {
        let r = find_rule(&self.rules, id);
        proof {
            if let Some(rule) = r {
                let i = choose|i: int|
                    {
                        &&& 0 <= i < self.rules@.len()
                        &&& *rule == #[trigger] self.rules@[i]
                        &&& rule.id@ == id@
                        &&& forall|j: int| 0 <= j < i ==> (#[trigger] self.rules@[j]).id@ != id@
                    };
                assert(self.entries()[i] == self.rules@[i]);
                assert forall|j: int| 0 <= j < i implies (#[trigger] self.entries()[j]).id@ != id@ by {
                    assert(self.entries()[j] == self.rules@[j]);
                }
            }
        }
        r
    }

    /// The rule a tile triggers: the fire rule for fire tiles, none otherwise.
    pub fn tile_rule(&self, tile: TileType) -> (r: Option<&Rule>)
        ensures
            tile != TileType::Fire ==> r.is_none(),
            tile == TileType::Fire ==> r.is_none() == !has_rule(self.entries(), "fire/burn"@),
            r matches Some(rule) ==> rule.id@ == "fire/burn"@ && self.entries().contains(*rule),
            r matches Some(rule) ==> exists|i: int|
                {
                    &&& 0 <= i < self.entries().len()
                    &&& *rule == #[trigger] self.entries()[i]
                    &&& rule.id@ == "fire/burn"@
                    &&& forall|j: int| 0 <= j < i ==> (#[trigger] self.entries()[j]).id@ != "fire/burn"@
                },
    {
        let r = find_tile_rule(&self.rules, tile);
        proof {
            if let Some(rule) = r {
                let i = choose|i: int|
                    {
                        &&& 0 <= i < self.rules@.len()
                        &&& *rule == #[trigger] self.rules@[i]
                        &&& rule.id@ == "fire/burn"@
                        &&& forall|j: int| 0 <= j < i ==> (#[trigger] self.rules@[j]).id@ != "fire/burn"@
                    };
                assert(self.entries()[i] == self.rules@[i]);
                assert forall|j: int| 0 <= j < i implies (#[trigger] self.entries()[j]).id@ != "fire/burn"@ by {
                    assert(self.entries()[j] == self.rules@[j]);
                }
            }
        }
        r
    }

    /// The ids of the rules visible to the player, given the entity kinds and
    /// tile types seen so far, in registry order.
    pub fn visible_ids(&self, seen_entities: &[EntityKind], seen_tiles: &[TileType]) -> (ids: Vec<String>)
        ensures
            ids@.len() == visible_ids_of(self.entries(), self.entries(), seen_entities@, seen_tiles@).len(),
            forall|k: int| 0 <= k < ids@.len() ==> (#[trigger] ids@[k])@ == visible_ids_of(
                self.entries(),
                self.entries(),
                seen_entities@,
                seen_tiles@,
            )[k],
    {
        visible_rule_ids(&self.rules, seen_entities, seen_tiles)
    }

    /// Number of rules.
    pub fn len(&self) -> (n: usize)
        ensures
            n == self.entries().len(),
    {
        self.rules.len()
    }

    /// Whether the registry has no rules.
    pub fn is_empty(&self) -> (b: bool)
        ensures
            b == (self.entries().len() == 0),
    {
        self.rules.len() == 0
    }
}

} // verus!
