//! Memory fragments: Adrian's buried memories, 42 in all. The first 33 can
//! be found in the dungeon and collected; the last 9 are permanently
//! suppressed and only show up in registry queries.

use vstd::prelude::*;

use crate::text::str_eq;

verus! {

/// Status of a memory fragment.
#[derive(Clone, Copy, Debug, PartialEq, Eq, Structural)]
pub enum FragmentStatus {
    /// Permanently suppressed: can never be recovered (frag-034 to frag-042).
    Suppressed,
    /// Findable but not yet discovered by the player.
    Hidden,
    /// Collected by the player (bumped into in the dungeon).
    Collected,
}

/// A single memory fragment.
#[derive(Debug)]
pub struct Fragment {
    pub id: String,
    pub text: String,
    pub weight: i32,
    pub status: FragmentStatus,
}

/// Registry of all memory fragments; tracks which have been collected.
#[derive(Debug)]
pub struct FragmentRegistry {
    fragments: Vec<Fragment>,
}

/// Number of fragments with the given status.
pub open spec fn status_count(s: Seq<Fragment>, st: FragmentStatus) -> nat
    decreases s.len(),
{
    if s.len() == 0 {
        0
    } else {
        status_count(s.drop_last(), st) + if s.last().status == st {
            1nat
        } else {
            0nat
        }
    }
}

/// Number of fragments that are not suppressed.
pub open spec fn findable_total(s: Seq<Fragment>) -> nat {
    (s.len() - status_count(s, FragmentStatus::Suppressed)) as nat
}

/// The suppressed fragments, in registry order.
pub open spec fn suppressed_of(s: Seq<Fragment>) -> Seq<Fragment>
    decreases s.len(),
{
    if s.len() == 0 {
        Seq::empty()
    } else if s.last().status == FragmentStatus::Suppressed {
        suppressed_of(s.drop_last()).push(s.last())
    } else {
        suppressed_of(s.drop_last())
    }
}

/// A fragment that `collect(id)` would pick up.
pub open spec fn collectable(f: Fragment, id: Seq<char>) -> bool {
    f.id@ == id && f.status == FragmentStatus::Hidden
}

/// The decimal digit character of `d` (0 to 9).
pub open spec fn digit_char(d: int) -> char {
    if d == 0 {
        '0'
    } else if d == 1 {
        '1'
    } else if d == 2 {
        '2'
    } else if d == 3 {
        '3'
    } else if d == 4 {
        '4'
    } else if d == 5 {
        '5'
    } else if d == 6 {
        '6'
    } else if d == 7 {
        '7'
    } else if d == 8 {
        '8'
    } else {
        '9'
    }
}

/// The id of the `i`-th fragment: `frag-` followed by the three-digit number
/// `i + 1`.
pub open spec fn fragment_id(i: int) -> Seq<char> {
    "frag-"@ + seq![digit_char((i + 1) / 100), digit_char((i + 1) / 10 % 10), digit_char((i + 1) % 10)]
}

/// Different positions below 999 have different ids.
pub proof fn lemma_fragment_id_injective(i: int, j: int)
    requires
        0 <= i < 999,
        0 <= j < 999,
        i != j,
    ensures
        fragment_id(i) != fragment_id(j),
{
    let a = fragment_id(i);
    let b = fragment_id(j);
    reveal_strlit("frag-");
    if a == b {
        assert(a[5] == b[5] && a[6] == b[6] && a[7] == b[7]);
        assert((i + 1) / 100 == (j + 1) / 100);
        assert((i + 1) / 10 % 10 == (j + 1) / 10 % 10);
        assert((i + 1) % 10 == (j + 1) % 10);
        assert(i + 1 == (i + 1) / 100 * 100 + (i + 1) / 10 % 10 * 10 + (i + 1) % 10);
        assert(j + 1 == (j + 1) / 100 * 100 + (j + 1) / 10 % 10 * 10 + (j + 1) % 10);
    }
}

/// The emotional weight of the `i`-th fragment.
pub open spec fn fragment_weight(i: int) -> int {
    if i == 0 {
        30
    } else if i == 1 {
        32
    } else if i == 2 {
        35
    } else if i == 3 {
        28
    } else if i == 4 {
        25
    } else if i == 5 {
        30
    } else if i == 6 {
        32
    } else if i == 7 {
        45
    } else if i == 8 {
        42
    } else if i == 9 {
        55
    } else if i == 10 {
        58
    } else if i == 11 {
        50
    } else if i == 12 {
        38
    } else if i == 13 {
        48
    } else if i == 14 {
        60
    } else if i == 15 {
        65
    } else if i == 16 {
        62
    } else if i == 17 {
        68
    } else if i == 18 {
        58
    } else if i == 19 {
        63
    } else if i == 20 {
        65
    } else if i == 21 {
        55
    } else if i == 22 {
        52
    } else if i == 23 {
        52
    } else if i == 24 {
        60
    } else if i == 25 {
        58
    } else if i == 26 {
        62
    } else if i == 27 {
        75
    } else if i == 28 {
        45
    } else if i == 29 {
        48
    } else if i == 30 {
        30
    } else if i == 31 {
        28
    } else if i == 32 {
        20
    } else if i == 33 {
        95
    } else if i == 34 {
        88
    } else if i == 35 {
        91
    } else if i == 36 {
        79
    } else if i == 37 {
        84
    } else if i == 38 {
        97
    } else if i == 39 {
        93
    } else if i == 40 {
        100
    } else if i == 41 {
        42
    } else {
        0
    }
}

/// Whether all fragment ids differ.
pub open spec fn distinct_ids(s: Seq<Fragment>) -> bool {
    forall|i: int, j: int|
        0 <= i < s.len() && 0 <= j < s.len() && i != j ==> #[trigger] s[i].id@ != #[trigger] s[j].id@
}

pub proof fn lemma_status_count_bound(s: Seq<Fragment>, st: FragmentStatus)
    ensures
        status_count(s, st) <= s.len(),
    decreases s.len(),
{
    if s.len() > 0 {
        lemma_status_count_bound(s.drop_last(), st);
    }
}

/// The three status counts add up to the number of fragments.
pub proof fn lemma_status_partition(s: Seq<Fragment>)
    ensures
        status_count(s, FragmentStatus::Suppressed) + status_count(s, FragmentStatus::Hidden) + status_count(
            s,
            FragmentStatus::Collected,
        ) == s.len(),
    decreases s.len(),
{
    if s.len() > 0 {
        lemma_status_partition(s.drop_last());
    }
}

pub proof fn lemma_no_collected(s: Seq<Fragment>)
    requires
        forall|i: int| 0 <= i < s.len() ==> (#[trigger] s[i]).status != FragmentStatus::Collected,
    ensures
        status_count(s, FragmentStatus::Collected) == 0,
    decreases s.len(),
{
    if s.len() > 0 {
        lemma_no_collected(s.drop_last());
    }
}

pub proof fn lemma_status_count_update(s: Seq<Fragment>, i: int, f: Fragment, st: FragmentStatus)
    requires
        0 <= i < s.len(),
    ensures
        status_count(s.update(i, f), st) == status_count(s, st) - (if s[i].status == st {
            1int
        } else {
            0int
        }) + (if f.status == st {
            1int
        } else {
            0int
        }),
    decreases s.len(),
{
    if i == s.len() - 1 {
        assert(s.update(i, f).drop_last() =~= s.drop_last());
    } else {
        assert(s.update(i, f).drop_last() =~= s.drop_last().update(i, f));
        lemma_status_count_update(s.drop_last(), i, f, st);
    }
}

fn fragment(id: &str, text: &str, weight: i32, status: FragmentStatus) -> (f: Fragment)
    ensures
        f.id@ == id@,
        f.text@ == text@,
        f.weight == weight,
        f.status == status,
{
    Fragment { id: id.to_string(), text: text.to_string(), weight, status }
}

/// The memory text of each fragment, in registry order.
pub const FRAGMENT_TEXTS: [&'static str; 42] = [
    "I don't remember the first conversation we ever had. Just some random place where two people started talking and neither of them knew yet. But I remember the first time she laughed at something stupid I said. We were sitting on a bench outside a coffee shop. We'd only known each other a few months, still in that phase where everything the other person said felt like a discovery. I don't remember what I said but I remember the sound she made: this surprised wheeze like I'd caught her off guard. I wanted to make her do that forever.",
    "She stayed late after a party to help me clean. Just the two of us, picking up plastic cups in the dark. She said \"this is the best part of the night\" and I pretended not to hear because if I heard it I'd have to admit I felt it too. But I did heard it. I also felt it.",
    "The first time she told me about her family. How close they were. How they called each other every Sunday. How they still took family trips, not out of obligation, but because they genuinely liked being together. I nodded and smiled and felt something crack open in my chest. I didn't know families did that. I still don't.",
    "She texted me a picture of a dog in a sweater. Just randomly. No reason. I realized someone was thinking about me when I wasn't in the room. I did not know that was something people did. I have the picture saved, and even to this day.",
    "After a Friday night football game, we admitted it over text. \"I know there isn't a homecoming dance this year, but if there was, I would've asked you.\" \"Really? And I would've said yes.\" I stared at my phone for ten minutes just smiling. I didn't know a person could feel this warm.",
    "Our first real date. She picked a diner open late. We sat in a booth with sticky menus and she dared me to order the weirdest thing on the menu. I got a tuna melt. She said that was the most boring choice possible. She ordered a milkshake and let me have the first sip. I don't remember what we talked about. I remember thinking \"I want this forever\" and being too scared to say it out loud.",
    "She sent me a playlist. Called it \"songs that remind me of you.\" I listened to it on repeat for three days. Each song felt like a message I had to decode. By the third day I realized there was nothing to decode — she just liked me and wanted me to know. I didn't know people did that. I didn't know you could just... tell someone you liked them, without it meaning something else. I still have the playlist.",
    "We went to a farmer's market on a Saturday morning. She bought strawberries and fed me one. She laughed at my face — too sour. I laughed at her laugh. It was a good day. But on the walk back I went quiet and she noticed. She asked what was wrong. I said nothing. She said \"you're doing the thing again.\" I didn't know what \"the thing\" was. She said \"you go somewhere I can't follow.\" She wasn't mad. She was just sad. That was worse.",
    "She introduced me to her friends. They were nice. Normal. They asked about my job. They laughed at my jokes. I spent the whole night convinced they could tell something was wrong with me. Afterward she said \"they loved you\" and I said \"really?\" and she said \"really.\" I wanted to believe her. I couldn't. Not because of anything she did — because I didn't know how to believe someone could stay.",
    "The first time I thought \"she's going to leave me.\" Not because she did anything. Because I couldn't believe she'd stay. I lay awake next to her and counted all the ways I wasn't enough. I was still counting when the sun came up. She was still asleep. She was still there. She left anyway, eventually.",
    "Three months in. She said \"I feel like I'm walking on eggshells.\" I said \"that's not true.\" She said \"I'm holding a carton of eggs and every time you ask if I'm upset I drop another one.\" I didn't understand what she meant. I understand now.",
    "I tried to explain my childhood to her. Not the big stuff — just the shape of it. Dad coming home at 9 PM too tired to talk. Mom filling her days with chores until she finally took a job and left me with an empty house. The family trips we stopped taking because nobody knew how to be together. The arguments I could hear the shape of but never the words, ending in silence instead of apology. The rooms everyone walked through without touching. She listened. She said \"that sounds hard.\" I said \"it wasn't that bad.\" We both knew I was lying.",
    "She wrote me a letter. A real one, on paper. She said I was kind and funny and she was lucky to know me. I read it seventeen times. I cried the first five. I never told her. I keep it in my jacket pocket even though the creases have worn through the words.",
    "The last good night. We made dinner together. She burned the rice. I spilled wine on the floor. We sat on the couch and she fell asleep on my shoulder. I didn't move for two hours. I knew even then that I would remember that night forever. I just didn't know I'd be remembering it alone.",
    "She said \"we need to talk.\" Four words. I'd read about them. I'd rehearsed responses in the shower. None of it helped. My hands went cold. My voice went flat. I knew what was coming because I'd been waiting for it since the day we met.",
    "She cried when she said it. That was the worst part. If she'd been cold I could have been angry. But she cried. She said \"I care about you so much. But I can't... I can't fix this. You need to fix this. I don't know how to help you.\" She was right. She was right and I hated her for being right.",
    "She said \"I want to break up, and maybe we can be friends. I do have one condition: that we have a period of no-contact.\" Maybe she was being kind. Maybe she was being cruel. Or maybe she was being practical...I'll never know. I've rewritten her reasons so many times I can't remember which version I started with.",
    "I rehearsed asking her if we could still be friends. I had the whole speech memorized. \"I know why you need this. I understand. But maybe someday...\" I never said it. Because I didn't know why she needed it. Because the speech assumed I understood her reasons and I don't. Maybe she didn't need this at all and just wanted me gone. So I let her walk away without making it harder. I've never been more proud of myself. I've never hated myself more.",
    "The first week after. I checked my phone every thirty seconds. She didn't text. Why would she text? The relationship was over. But I kept checking because what if she needed something? What if she changed her mind? What if? What if? What if?",
    "I wrote her a letter. Five pages. I told her I was sorry. I told her I would change. I told her I understood why she left and I didn't blame her. I told her I loved her. I read it seven times, made three drafts, and never sent any of them. They're still in my drawer. I know exactly which drawer.",
    "I imagined her with someone else. I don't know if it's real — I have no way of knowing. No contact means no information. She could be alone. She could be happy. She could be with someone who doesn't ruin things by caring too much. I'll never know. I imagine the worst version because at least then I can prepare for it. I imagine the best version because at least then she's happy.",
    "My mother called. She asked how I was doing. I said \"fine.\" She said \"good.\" I almost told her the truth — almost. But I grew up in a house where you didn't bring your problems to the dinner table. Except by high school there was no dinner table. She was at work. Dad was at work. I was alone. So I said \"fine\" and she said \"good\" and we hung up. I couldn't remember the last time someone in my family asked a follow-up question.",
    "The last time I felt truly happy. I didn't know it would be the last time. I would have stayed longer. I would have paid more attention. I would have memorized the way she looked in the morning light. But I didn't know. You never know.",
    "I stopped answering texts. First hers (what was I supposed to say). Then my friends'. Then my boss's. The phone would light up and I'd watch it until it went dark. Every unanswered message felt like one less person expecting things from me. Eventually they stopped sending them. That was worse.",
    "I looked in the mirror and didn't recognize myself. Not in a poetic way. I literally stood there trying to remember when my face got that tired. The bags under my eyes. The hollow cheeks. I looked like a photograph of someone I used to know.",
    "I stopped cooking. I stopped eating. Not on purpose — I just forgot. I'd realize at midnight that I hadn't eaten anything and I'd eat crackers over the sink and tell myself tomorrow would be different. Tomorrow was the same.",
    "I started going for walks at 3 AM. Through the city. Past closed cafes. Past the bench where she first laughed at my joke. Past her street, where the light in her window was always off. I wasn't trying to see her. I was trying to feel something other than this.",
    "The bridge. I stood on it one night. The water was moving very fast. I thought about how easy it would be. Not because I wanted to die. Because I wanted the thinking to stop. I stood there for a long time. Eventually I walked home. I don't know why. I'm not brave. I was just too tired to decide.",
    "I deleted her number. Then I recovered it from the trash. Then I deleted it again. I did this seven times over three days. The eighth time I left it in the trash. That was a year ago. I still remember it.",
    "I looked up \"anxious attachment\" at 2 AM. I read twenty articles. I recognized myself in every one. I felt relief — there's a name for this. Then I felt worse — there's a name for this, which means it's real, which means I've always been like this, which means I'll always be like this. I closed the laptop and lay in the dark.",
    "I called a friend. Not to talk about her. Just to talk. We talked about nothing for an hour. Sports. Weather. A show I haven't watched. After I hung up I realized I'd gone two hours without thinking about her. Two hours. It's not much. It's more than I've had in months.",
    "I started writing again. Not letters. Just... things. Descriptions of days. Small things I noticed. The way light falls across my kitchen floor at 4 PM. A bird that visits the fire escape. I don't know if it's good. I don't care. It's mine. I'm making something again.",
    "Something about a garden. Or a park bench. Or snow. The fragment is corrupted — whether by time or by the suppression I can't tell. But I remember warmth. I remember not being alone. I remember being loved.",
    "ACCESS DENIED — corrupt decrypt: her voice ... cracking ...",
    "ACCESS DENIED — corrupt decrypt: I said ... shouldn't have ...",
    "ACCESS DENIED — corrupt decrypt: door closing ... dark ...",
    "ACCESS DENIED — corrupt decrypt: why is she ... another guy ...",
    "ACCESS DENIED — corrupt decrypt: wanted to ... but she ...",
    "ACCESS DENIED — corrupt decrypt: railing ... cold ... step forward ...",
    "ACCESS DENIED — corrupt decrypt: she knew ... before I did ...",
    "ACCESS DENIED — corrupt decrypt: the worst thing ... still love ...",
    "ACCESS DENIED — corrupt decrypt: 42. The answer. The question. Both lost.",
];

/// The memory text of fragment `i`.
pub open spec fn fragment_text(i: int) -> Seq<char> {
    FRAGMENT_TEXTS@[i]@
}

/// All 42 fragments in registry order.
#[verifier::rlimit(100)]
#[verifier::spinoff_prover]
pub fn all_fragments() -> (v: Vec<Fragment>)
    ensures
        v@.len() == 42,
        forall|i: int| 0 <= i < 42 ==> (#[trigger] v@[i]).status == (if i < 33 {
            FragmentStatus::Hidden
        } else {
            FragmentStatus::Suppressed
        }),
        forall|i: int| 0 <= i < 42 ==> (#[trigger] v@[i]).weight == fragment_weight(i),
        forall|i: int| 0 <= i < 42 ==> (#[trigger] v@[i]).id@ == fragment_id(i),
        forall|i: int| 0 <= i < 42 ==> (#[trigger] v@[i]).text@ == fragment_text(i),
        distinct_ids(v@),
{
    let v = vec![
        // Denial: Pre-relationship, early friendship
        fragment(
            "frag-001",
            FRAGMENT_TEXTS[0],
            30,
            FragmentStatus::Hidden,
        ),
        fragment(
            "frag-002",
            FRAGMENT_TEXTS[1],
            32,
            FragmentStatus::Hidden,
        ),
        fragment(
            "frag-003",
            FRAGMENT_TEXTS[2],
            35,
            FragmentStatus::Hidden,
        ),
        fragment(
            "frag-004",
            FRAGMENT_TEXTS[3],
            28,
            FragmentStatus::Hidden,
        ),
        // Anger: Relationship, four months, first cracks
        fragment(
            "frag-005",
            FRAGMENT_TEXTS[4],
            25,
            FragmentStatus::Hidden,
        ),
        fragment(
            "frag-006",
            FRAGMENT_TEXTS[5],
            30,
            FragmentStatus::Hidden,
        ),
        fragment(
            "frag-007",
            FRAGMENT_TEXTS[6],
            32,
            FragmentStatus::Hidden,
        ),
        fragment(
            "frag-008",
            FRAGMENT_TEXTS[7],
            45,
            FragmentStatus::Hidden,
        ),
        fragment(
            "frag-009",
            FRAGMENT_TEXTS[8],
            42,
            FragmentStatus::Hidden,
        ),
        fragment(
            "frag-010",
            FRAGMENT_TEXTS[9],
            55,
            FragmentStatus::Hidden,
        ),
        fragment(
            "frag-011",
            FRAGMENT_TEXTS[10],
            58,
            FragmentStatus::Hidden,
        ),
        fragment(
            "frag-012",
            FRAGMENT_TEXTS[11],
            50,
            FragmentStatus::Hidden,
        ),
        fragment(
            "frag-013",
            FRAGMENT_TEXTS[12],
            38,
            FragmentStatus::Hidden,
        ),
        fragment(
            "frag-014",
            FRAGMENT_TEXTS[13],
            48,
            FragmentStatus::Hidden,
        ),
        // Bargaining: The breakup, the aftermath
        fragment(
            "frag-015",
            FRAGMENT_TEXTS[14],
            60,
            FragmentStatus::Hidden,
        ),
        fragment(
            "frag-016",
            FRAGMENT_TEXTS[15],
            65,
            FragmentStatus::Hidden,
        ),
        fragment(
            "frag-017",
            FRAGMENT_TEXTS[16],
            62,
            FragmentStatus::Hidden,
        ),
        fragment(
            "frag-018",
            FRAGMENT_TEXTS[17],
            68,
            FragmentStatus::Hidden,
        ),
        fragment(
            "frag-019",
            FRAGMENT_TEXTS[18],
            58,
            FragmentStatus::Hidden,
        ),
        fragment(
            "frag-020",
            FRAGMENT_TEXTS[19],
            63,
            FragmentStatus::Hidden,
        ),
        fragment(
            "frag-021",
            FRAGMENT_TEXTS[20],
            65,
            FragmentStatus::Hidden,
        ),
        fragment(
            "frag-022",
            FRAGMENT_TEXTS[21],
            55,
            FragmentStatus::Hidden,
        ),
        fragment(
            "frag-023",
            FRAGMENT_TEXTS[22],
            52,
            FragmentStatus::Hidden,
        ),
        fragment(
            "frag-024",
            FRAGMENT_TEXTS[23],
            52,
            FragmentStatus::Hidden,
        ),
        // Depression: Spiral, isolation, lowest point
        fragment(
            "frag-025",
            FRAGMENT_TEXTS[24],
            60,
            FragmentStatus::Hidden,
        ),
        fragment(
            "frag-026",
            FRAGMENT_TEXTS[25],
            58,
            FragmentStatus::Hidden,
        ),
        fragment(
            "frag-027",
            FRAGMENT_TEXTS[26],
            62,
            FragmentStatus::Hidden,
        ),
        fragment(
            "frag-028",
            FRAGMENT_TEXTS[27],
            75,
            FragmentStatus::Hidden,
        ),
        fragment(
            "frag-029",
            FRAGMENT_TEXTS[28],
            45,
            FragmentStatus::Hidden,
        ),
        fragment(
            "frag-030",
            FRAGMENT_TEXTS[29],
            48,
            FragmentStatus::Hidden,
        ),
        // Acceptance: Glimmers of healing
        fragment(
            "frag-031",
            FRAGMENT_TEXTS[30],
            30,
            FragmentStatus::Hidden,
        ),
        fragment(
            "frag-032",
            FRAGMENT_TEXTS[31],
            28,
            FragmentStatus::Hidden,
        ),
        // Core: The last fragment
        fragment(
            "frag-033",
            FRAGMENT_TEXTS[32],
            20,
            FragmentStatus::Hidden,
        ),
        // Permanently Suppressed (Registry Only)
        fragment(
            "frag-034",
            FRAGMENT_TEXTS[33],
            95,
            FragmentStatus::Suppressed,
        ),
        fragment(
            "frag-035",
            FRAGMENT_TEXTS[34],
            88,
            FragmentStatus::Suppressed,
        ),
        fragment(
            "frag-036",
            FRAGMENT_TEXTS[35],
            91,
            FragmentStatus::Suppressed,
        ),
        fragment(
            "frag-037",
            FRAGMENT_TEXTS[36],
            79,
            FragmentStatus::Suppressed,
        ),
        fragment(
            "frag-038",
            FRAGMENT_TEXTS[37],
            84,
            FragmentStatus::Suppressed,
        ),
        fragment(
            "frag-039",
            FRAGMENT_TEXTS[38],
            97,
            FragmentStatus::Suppressed,
        ),
        fragment(
            "frag-040",
            FRAGMENT_TEXTS[39],
            93,
            FragmentStatus::Suppressed,
        ),
        fragment(
            "frag-041",
            FRAGMENT_TEXTS[40],
            100,
            FragmentStatus::Suppressed,
        ),
        fragment(
            "frag-042",
            FRAGMENT_TEXTS[41],
            42,
            FragmentStatus::Suppressed,
        ),
    ];
    proof {
        reveal_strlit("frag-");
        reveal_strlit("frag-001");
        assert(v@[0].id@ =~= fragment_id(0));
        reveal_strlit("frag-002");
        assert(v@[1].id@ =~= fragment_id(1));
        reveal_strlit("frag-003");
        assert(v@[2].id@ =~= fragment_id(2));
        reveal_strlit("frag-004");
        assert(v@[3].id@ =~= fragment_id(3));
        reveal_strlit("frag-005");
        assert(v@[4].id@ =~= fragment_id(4));
        reveal_strlit("frag-006");
        assert(v@[5].id@ =~= fragment_id(5));
        reveal_strlit("frag-007");
        assert(v@[6].id@ =~= fragment_id(6));
        reveal_strlit("frag-008");
        assert(v@[7].id@ =~= fragment_id(7));
        reveal_strlit("frag-009");
        assert(v@[8].id@ =~= fragment_id(8));
        reveal_strlit("frag-010");
        assert(v@[9].id@ =~= fragment_id(9));
        reveal_strlit("frag-011");
        assert(v@[10].id@ =~= fragment_id(10));
        reveal_strlit("frag-012");
        assert(v@[11].id@ =~= fragment_id(11));
        reveal_strlit("frag-013");
        assert(v@[12].id@ =~= fragment_id(12));
        reveal_strlit("frag-014");
        assert(v@[13].id@ =~= fragment_id(13));
        reveal_strlit("frag-015");
        assert(v@[14].id@ =~= fragment_id(14));
        reveal_strlit("frag-016");
        assert(v@[15].id@ =~= fragment_id(15));
        reveal_strlit("frag-017");
        assert(v@[16].id@ =~= fragment_id(16));
        reveal_strlit("frag-018");
        assert(v@[17].id@ =~= fragment_id(17));
        reveal_strlit("frag-019");
        assert(v@[18].id@ =~= fragment_id(18));
        reveal_strlit("frag-020");
        assert(v@[19].id@ =~= fragment_id(19));
        reveal_strlit("frag-021");
        assert(v@[20].id@ =~= fragment_id(20));
        reveal_strlit("frag-022");
        assert(v@[21].id@ =~= fragment_id(21));
        reveal_strlit("frag-023");
        assert(v@[22].id@ =~= fragment_id(22));
        reveal_strlit("frag-024");
        assert(v@[23].id@ =~= fragment_id(23));
        reveal_strlit("frag-025");
        assert(v@[24].id@ =~= fragment_id(24));
        reveal_strlit("frag-026");
        assert(v@[25].id@ =~= fragment_id(25));
        reveal_strlit("frag-027");
        assert(v@[26].id@ =~= fragment_id(26));
        reveal_strlit("frag-028");
        assert(v@[27].id@ =~= fragment_id(27));
        reveal_strlit("frag-029");
        assert(v@[28].id@ =~= fragment_id(28));
        reveal_strlit("frag-030");
        assert(v@[29].id@ =~= fragment_id(29));
        reveal_strlit("frag-031");
        assert(v@[30].id@ =~= fragment_id(30));
        reveal_strlit("frag-032");
        assert(v@[31].id@ =~= fragment_id(31));
        reveal_strlit("frag-033");
        assert(v@[32].id@ =~= fragment_id(32));
        reveal_strlit("frag-034");
        assert(v@[33].id@ =~= fragment_id(33));
        reveal_strlit("frag-035");
        assert(v@[34].id@ =~= fragment_id(34));
        reveal_strlit("frag-036");
        assert(v@[35].id@ =~= fragment_id(35));
        reveal_strlit("frag-037");
        assert(v@[36].id@ =~= fragment_id(36));
        reveal_strlit("frag-038");
        assert(v@[37].id@ =~= fragment_id(37));
        reveal_strlit("frag-039");
        assert(v@[38].id@ =~= fragment_id(38));
        reveal_strlit("frag-040");
        assert(v@[39].id@ =~= fragment_id(39));
        reveal_strlit("frag-041");
        assert(v@[40].id@ =~= fragment_id(40));
        reveal_strlit("frag-042");
        assert(v@[41].id@ =~= fragment_id(41));
        assert forall|i: int, j: int| 0 <= i < v@.len() && 0 <= j < v@.len() && i != j implies #[trigger] v@[i].id@
            != #[trigger] v@[j].id@ by {
            lemma_fragment_id_injective(i, j);
        }
    }
    v
}

impl FragmentRegistry {
    /// The fragments in registry order.
    pub closed spec fn entries(&self) -> Seq<Fragment> {
        self.fragments@
    }

    /// A registry holding these fragments, as a save file stored them.
    pub fn from_fragments(fragments: Vec<Fragment>) -> (r: FragmentRegistry)
        ensures
            r.entries() == fragments@,
    {
        FragmentRegistry { fragments }
    }

    /// Build the full registry with all 42 fragments, none collected.
    pub fn new() -> (r: FragmentRegistry)
        ensures
            r.entries().len() == 42,
            forall|i: int| 0 <= i < 42 ==> (#[trigger] r.entries()[i]).status == (if i < 33 {
                FragmentStatus::Hidden
            } else {
                FragmentStatus::Suppressed
            }),
            forall|i: int| 0 <= i < 42 ==> (#[trigger] r.entries()[i]).weight == fragment_weight(i),
            forall|i: int| 0 <= i < 42 ==> (#[trigger] r.entries()[i]).id@ == fragment_id(i),
            forall|i: int| 0 <= i < 42 ==> (#[trigger] r.entries()[i]).text@ == fragment_text(i),
            distinct_ids(r.entries()),
            status_count(r.entries(), FragmentStatus::Collected) == 0,
            campaign_shape(r.entries()),
    {
        let v = all_fragments();
        proof {
            lemma_no_collected(v@);
        }
        FragmentRegistry { fragments: v }
    }

    /// Mark a fragment as collected. Returns true if it was findable and not
    /// already collected; the first such fragment with this id is the one
    /// marked.
    pub fn collect(&mut self, id: &str) -> (changed: bool)
        ensures
            changed == (exists|i: int|
                0 <= i < old(self).entries().len() && collectable(#[trigger] old(self).entries()[i], id@)),
            !changed ==> final(self).entries() == old(self).entries(),
            changed ==> exists|i: int|
                {
                    &&& 0 <= i < old(self).entries().len()
                    &&& collectable(#[trigger] old(self).entries()[i], id@)
                    &&& forall|j: int| 0 <= j < i ==> !collectable(#[trigger] old(self).entries()[j], id@)
                    &&& final(self).entries() == old(self).entries().update(
                        i,
                        Fragment { status: FragmentStatus::Collected, ..old(self).entries()[i] },
                    )
                },
            final(self).entries() == collected_by(old(self).entries(), id@),
    {
        let n = self.fragments.len();
        let mut i: usize = 0;
        while i < n
            invariant
                n == self.fragments@.len(),
                self.fragments@ == old(self).fragments@,
                i <= n,
                forall|j: int| 0 <= j < i ==> !collectable(#[trigger] self.fragments@[j], id@),
            decreases n - i,
        {
            if str_eq(self.fragments[i].id.as_str(), id) && self.fragments[i].status == FragmentStatus::Hidden {
                let mut taken = Fragment {
                    id: String::new(),
                    text: String::new(),
                    weight: 0,
                    status: FragmentStatus::Hidden,
                };
                self.fragments.set_and_swap(i, &mut taken);
                taken.status = FragmentStatus::Collected;
                self.fragments.set_and_swap(i, &mut taken);
                proof {
                    assert(collectable(old(self).entries()[i as int], id@));
                    assert(self.fragments@ =~= old(self).fragments@.update(
                        i as int,
                        Fragment { status: FragmentStatus::Collected, ..old(self).fragments@[i as int] },
                    ));
                    let b = old(self).entries();
                    let c = choose|c: int|
                        0 <= c < b.len() && collectable(#[trigger] b[c], id@) && forall|j: int|
                            0 <= j < c ==> !collectable(#[trigger] b[j], id@);
                    if c < i {
                        assert(!collectable(b[c], id@));
                    } else if c > i {
                        assert(!collectable(b[i as int], id@));
                    }
                }
                return true;
            }
            i = i + 1;
        }
        false
    }

    /// The first fragment with this id.
    pub fn get(&self, id: &str) -> (r: Option<&Fragment>)
        ensures
            r.is_none() == (forall|i: int|
                0 <= i < self.entries().len() ==> (#[trigger] self.entries()[i]).id@ != id@),
            r matches Some(f) ==> exists|i: int|
                {
                    &&& 0 <= i < self.entries().len()
                    &&& *f == #[trigger] self.entries()[i]
                    &&& f.id@ == id@
                    &&& forall|j: int| 0 <= j < i ==> (#[trigger] self.entries()[j]).id@ != id@
                },
    {
        let n = self.fragments.len();
        let mut i: usize = 0;
        while i < n
            invariant
                n == self.fragments@.len(),
                i <= n,
                forall|j: int| 0 <= j < i ==> (#[trigger] self.fragments@[j]).id@ != id@,
            decreases n - i,
        {
            if str_eq(self.fragments[i].id.as_str(), id) {
                return Some(&self.fragments[i]);
            }
            i = i + 1;
        }
        None
    }

    /// The suppressed fragments, in registry order.
    pub fn suppressed(&self) -> (r: Vec<&Fragment>)
        ensures
            r@.len() == suppressed_of(self.entries()).len(),
            forall|k: int| 0 <= k < r@.len() ==> *#[trigger] r@[k] == suppressed_of(self.entries())[k],
    {
        let mut r: Vec<&Fragment> = Vec::new();
        let n = self.fragments.len();
        let mut i: usize = 0;
        while i < n
            invariant
                n == self.fragments@.len(),
                i <= n,
                r@.len() == suppressed_of(self.fragments@.take(i as int)).len(),
                forall|k: int|
                    0 <= k < r@.len() ==> *#[trigger] r@[k] == suppressed_of(self.fragments@.take(i as int))[k],
            decreases n - i,
        {
            proof {
                assert(self.fragments@.take(i + 1).drop_last() =~= self.fragments@.take(i as int));
            }
            if self.fragments[i].status == FragmentStatus::Suppressed {
                r.push(&self.fragments[i]);
            }
            i = i + 1;
        }
        proof {
            assert(self.fragments@.take(n as int) =~= self.fragments@);
        }
        r
    }

    /// All fragments in registry order.
    pub fn all(&self) -> (r: &[Fragment])
        ensures
            r@ == self.entries(),
    {
        self.fragments.as_slice()
    }

    /// Number of fragments the player has collected.
    pub fn collected_count(&self) -> (c: usize)
        ensures
            c == status_count(self.entries(), FragmentStatus::Collected),
    {
        let n = self.fragments.len();
        let mut c: usize = 0;
        let mut i: usize = 0;
        while i < n
            invariant
                n == self.fragments@.len(),
                i <= n,
                c == status_count(self.fragments@.take(i as int), FragmentStatus::Collected),
            decreases n - i,
        {
            proof {
                assert(self.fragments@.take(i + 1).drop_last() =~= self.fragments@.take(i as int));
                lemma_status_count_bound(self.fragments@.take(i as int), FragmentStatus::Collected);
            }
            if self.fragments[i].status == FragmentStatus::Collected {
                c = c + 1;
            }
            i = i + 1;
        }
        proof {
            assert(self.fragments@.take(n as int) =~= self.fragments@);
        }
        c
    }

    /// Number of fragments that are not permanently suppressed.
    pub fn findable_count(&self) -> (c: usize)
        ensures
            c == findable_total(self.entries()),
    {
        let n = self.fragments.len();
        let mut c: usize = 0;
        let mut i: usize = 0;
        while i < n
            invariant
                n == self.fragments@.len(),
                i <= n,
                c == findable_total(self.fragments@.take(i as int)),
                status_count(self.fragments@.take(i as int), FragmentStatus::Suppressed) <= i,
            decreases n - i,
        {
            proof {
                assert(self.fragments@.take(i + 1).drop_last() =~= self.fragments@.take(i as int));
            }
            if self.fragments[i].status != FragmentStatus::Suppressed {
                c = c + 1;
            }
            i = i + 1;
        }
        proof {
            assert(self.fragments@.take(n as int) =~= self.fragments@);
        }
        c
    }
}

/// Collected fragments never outnumber the findable ones.
pub proof fn lemma_collected_within_findable(r: FragmentRegistry)
    ensures
        status_count(r.entries(), FragmentStatus::Collected) <= findable_total(r.entries()),
{
    lemma_status_partition(r.entries());
}

/// Collecting never changes how many fragments are findable, and a
/// successful collect adds exactly one to the collected count.
pub proof fn lemma_collect_counts(before: FragmentRegistry, after: FragmentRegistry, id: Seq<char>, changed: bool)
    requires
        !changed ==> after.entries() == before.entries(),
        changed ==> exists|i: int|
            {
                &&& 0 <= i < before.entries().len()
                &&& collectable(#[trigger] before.entries()[i], id)
                &&& after.entries() == before.entries().update(
                    i,
                    Fragment { status: FragmentStatus::Collected, ..before.entries()[i] },
                )
            },
    ensures
        findable_total(after.entries()) == findable_total(before.entries()),
        status_count(after.entries(), FragmentStatus::Collected) == status_count(
            before.entries(),
            FragmentStatus::Collected,
        ) + if changed {
            1int
        } else {
            0int
        },
{
    if changed {
        let i = choose|i: int|
            {
                &&& 0 <= i < before.entries().len()
                &&& collectable(#[trigger] before.entries()[i], id)
                &&& after.entries() == before.entries().update(
                    i,
                    Fragment { status: FragmentStatus::Collected, ..before.entries()[i] },
                )
            };
        let f = Fragment { status: FragmentStatus::Collected, ..before.entries()[i] };
        lemma_status_count_update(before.entries(), i, f, FragmentStatus::Collected);
        lemma_status_count_update(before.entries(), i, f, FragmentStatus::Suppressed);
    }
}

/// In a registry whose ids are distinct, a fragment once collected cannot be
/// collected again.
pub proof fn lemma_collect_once(before: FragmentRegistry, after: FragmentRegistry, id: Seq<char>)
    requires
        distinct_ids(before.entries()),
        exists|i: int|
            {
                &&& 0 <= i < before.entries().len()
                &&& collectable(#[trigger] before.entries()[i], id)
                &&& after.entries() == before.entries().update(
                    i,
                    Fragment { status: FragmentStatus::Collected, ..before.entries()[i] },
                )
            },
    ensures
        distinct_ids(after.entries()),
        !(exists|i: int| 0 <= i < after.entries().len() && collectable(#[trigger] after.entries()[i], id)),
{
    let i = choose|i: int|
        {
            &&& 0 <= i < before.entries().len()
            &&& collectable(#[trigger] before.entries()[i], id)
            &&& after.entries() == before.entries().update(
                i,
                Fragment { status: FragmentStatus::Collected, ..before.entries()[i] },
            )
        };
    assert forall|j: int| 0 <= j < after.entries().len() implies !collectable(#[trigger] after.entries()[j], id) by {
        if j != i {
            assert(before.entries()[j].id@ != before.entries()[i].id@);
        }
    }
}

/// The campaign's fragments as collecting leaves them: the 42 fragments in
/// order, with their ids, texts and weights, the first 33 findable (hidden
/// or collected) and the last nine suppressed.
pub open spec fn campaign_shape(s: Seq<Fragment>) -> bool {
    &&& s.len() == 42
    &&& distinct_ids(s)
    &&& forall|i: int| 0 <= i < 42 ==> (#[trigger] s[i]).id@ == fragment_id(i)
    &&& forall|i: int| 0 <= i < 42 ==> (#[trigger] s[i]).text@ == fragment_text(i)
    &&& forall|i: int| 0 <= i < 42 ==> (#[trigger] s[i]).weight == fragment_weight(i)
    &&& forall|i: int| 0 <= i < 33 ==> (#[trigger] s[i]).status != FragmentStatus::Suppressed
    &&& forall|i: int| 33 <= i < 42 ==> (#[trigger] s[i]).status == FragmentStatus::Suppressed
}

proof fn lemma_suppressed_prefix(s: Seq<Fragment>, k: int)
    requires
        campaign_shape(s),
        0 <= k <= 42,
    ensures
        status_count(s.take(k), FragmentStatus::Suppressed) == (if k <= 33 {
            0
        } else {
            k - 33
        }),
        suppressed_of(s.take(k)).len() == status_count(s.take(k), FragmentStatus::Suppressed),
    decreases k,
{
    if k > 0 {
        lemma_suppressed_prefix(s, k - 1);
        assert(s.take(k).drop_last() =~= s.take(k - 1));
        assert(s.take(k).last() == s[k - 1]);
    }
}

/// The campaign's shape holds from the start and through every collect, so
/// after any run of collects from a new registry 33 fragments are findable,
/// nine are suppressed, 42 are listed and at most 33 are collected.
pub proof fn lemma_collect_keeps_campaign(before: FragmentRegistry, after: FragmentRegistry, id: Seq<char>, changed: bool)
    requires
        campaign_shape(before.entries()),
        !changed ==> after.entries() == before.entries(),
        changed ==> exists|i: int|
            {
                &&& 0 <= i < before.entries().len()
                &&& collectable(#[trigger] before.entries()[i], id)
                &&& after.entries() == before.entries().update(
                    i,
                    Fragment { status: FragmentStatus::Collected, ..before.entries()[i] },
                )
            },
    ensures
        campaign_shape(after.entries()),
        findable_total(after.entries()) == 33,
        status_count(after.entries(), FragmentStatus::Suppressed) == 9,
        suppressed_of(after.entries()).len() == 9,
        after.entries().len() == 42,
        status_count(after.entries(), FragmentStatus::Collected) <= 33,
{
    let b = before.entries();
    let a = after.entries();
    if changed {
        let i = choose|i: int|
            {
                &&& 0 <= i < b.len()
                &&& collectable(#[trigger] b[i], id)
                &&& a == b.update(i, Fragment { status: FragmentStatus::Collected, ..b[i] })
            };
        assert forall|x: int, y: int| 0 <= x < a.len() && 0 <= y < a.len() && x != y implies #[trigger] a[x].id@
            != #[trigger] a[y].id@ by {
            assert(a[x].id == b[x].id && a[y].id == b[y].id);
        }
        assert forall|j: int| 33 <= j < 42 implies (#[trigger] a[j]).status == FragmentStatus::Suppressed by {
            if j == i {
                assert(b[i].status == FragmentStatus::Hidden);
            }
        }
    }
    assert(campaign_shape(a));
    lemma_suppressed_prefix(a, 42);
    assert(a.take(42) =~= a);
    lemma_status_partition(a);
}

/// The fragments after `collect(id)`: the first collectable fragment with
/// this id marked collected, or the fragments unchanged when there is none.
pub open spec fn collected_by(s: Seq<Fragment>, id: Seq<char>) -> Seq<Fragment> {
    if exists|i: int| 0 <= i < s.len() && collectable(#[trigger] s[i], id) {
        let i = choose|i: int|
            0 <= i < s.len() && collectable(#[trigger] s[i], id) && forall|j: int|
                0 <= j < i ==> !collectable(#[trigger] s[j], id);
        s.update(i, Fragment { status: FragmentStatus::Collected, ..s[i] })
    } else {
        s
    }
}

/// The fragments after collecting each of `ids` in turn.
pub open spec fn after_collects(s: Seq<Fragment>, ids: Seq<Seq<char>>) -> Seq<Fragment>
    decreases ids.len(),
{
    if ids.len() == 0 {
        s
    } else {
        collected_by(after_collects(s, ids.drop_last()), ids.last())
    }
}

proof fn lemma_collected_by_keeps(s: Seq<Fragment>, id: Seq<char>)
    requires
        campaign_shape(s),
    ensures
        campaign_shape(collected_by(s, id)),
{
    let a = collected_by(s, id);
    if exists|i: int| 0 <= i < s.len() && collectable(#[trigger] s[i], id) {
        let i = choose|i: int|
            0 <= i < s.len() && collectable(#[trigger] s[i], id) && forall|j: int|
                0 <= j < i ==> !collectable(#[trigger] s[j], id);
        assert forall|x: int, y: int| 0 <= x < a.len() && 0 <= y < a.len() && x != y implies #[trigger] a[x].id@
            != #[trigger] a[y].id@ by {
            assert(a[x].id == s[x].id && a[y].id == s[y].id);
        }
        assert forall|j: int| 33 <= j < 42 implies (#[trigger] a[j]).status == FragmentStatus::Suppressed by {
            if j == i {
                assert(s[i].status == FragmentStatus::Hidden);
            }
        }
    }
}

/// From a registry as `new` builds it, any run of collects leaves 33
/// fragments findable, nine suppressed and 42 listed, and at most 33
/// collected.
pub proof fn lemma_any_collects(start: Seq<Fragment>, ids: Seq<Seq<char>>)
    requires
        campaign_shape(start),
    ensures
        campaign_shape(after_collects(start, ids)),
        findable_total(after_collects(start, ids)) == 33,
        status_count(after_collects(start, ids), FragmentStatus::Suppressed) == 9,
        suppressed_of(after_collects(start, ids)).len() == 9,
        after_collects(start, ids).len() == 42,
        status_count(after_collects(start, ids), FragmentStatus::Collected) <= 33,
    decreases ids.len(),
{
    if ids.len() > 0 {
        lemma_any_collects(start, ids.drop_last());
        lemma_collected_by_keeps(after_collects(start, ids.drop_last()), ids.last());
    }
    let a = after_collects(start, ids);
    lemma_suppressed_prefix(a, 42);
    assert(a.take(42) =~= a);
    lemma_status_partition(a);
}

} // verus!
