use vstd::prelude::*;

use crate::random::random_u32;
use crate::room::Item;

verus! {

// ---------------------------------------------------------------------------
// Curses
// ---------------------------------------------------------------------------

/// Which curse kinds have been handed out this round.
#[derive(Clone, Copy, Debug, PartialEq, Eq, Structural)]
pub struct Curses {
    pub clear: bool,
    pub spin: bool,
    pub bad: bool,
}

pub open spec fn no_curses() -> Curses {
    Curses { clear: false, spin: false, bad: false }
}

/// Whether `item` is a curse that has already been handed out.
pub open spec fn curse_used(c: Curses, item: Item) -> bool {
    match item {
        Item::Key => false,
        Item::Clear => c.clear,
        Item::Spin => c.spin,
        Item::Bad => c.bad,
    }
}

/// What comes out when `item` is asked for: a key in place of a curse that is
/// used up.
pub open spec fn curse_result(c: Curses, item: Item) -> Item {
    if curse_used(c, item) {
        Item::Key
    } else {
        item
    }
}

/// The tracker after `item` is asked for.
pub open spec fn curse_after(c: Curses, item: Item) -> Curses {
    match item {
        Item::Key => c,
        Item::Clear => Curses { clear: true, ..c },
        Item::Spin => Curses { spin: true, ..c },
        Item::Bad => Curses { bad: true, ..c },
    }
}

/// The items that a run of requests for `kinds` yields, from tracker `c`.
pub open spec fn curse_results(c: Curses, kinds: Seq<Item>) -> Seq<Item>
    decreases kinds.len(),
{
    if kinds.len() == 0 {
        Seq::empty()
    } else {
        seq![curse_result(c, kinds[0])] + curse_results(curse_after(c, kinds[0]), kinds.drop_first())
    }
}

/// Within a round each curse kind is handed out at most once: each request
/// yields what was asked for or a key, a curse kind never comes out twice,
/// every request for it after the one that yielded it yields a key, and a
/// kind that is already used never comes out.
pub proof fn lemma_curse_at_most_once(c: Curses, kinds: Seq<Item>, k: Item)
    requires
        k != Item::Key,
    ensures
        curse_results(c, kinds).len() == kinds.len(),
        forall|i: int|
            0 <= i < kinds.len() ==> #[trigger] curse_results(c, kinds)[i] == kinds[i]
                || curse_results(c, kinds)[i] == Item::Key,
        forall|i: int, j: int|
            #![trigger curse_results(c, kinds)[i], curse_results(c, kinds)[j]]
            0 <= i < j < kinds.len() && curse_results(c, kinds)[i] == k ==> curse_results(c, kinds)[j]
                != k,
        forall|i: int, j: int|
            #![trigger curse_results(c, kinds)[i], kinds[j]]
            0 <= i < j < kinds.len() && curse_results(c, kinds)[i] == k && kinds[j] == k
                ==> curse_results(c, kinds)[j] == Item::Key,
        curse_used(c, k) ==> forall|i: int|
            0 <= i < kinds.len() ==> #[trigger] curse_results(c, kinds)[i] != k,
    decreases kinds.len(),
{
    if kinds.len() > 0 {
        let c2 = curse_after(c, kinds[0]);
        let rest = kinds.drop_first();
        lemma_curse_at_most_once(c2, rest, k);
        let r = curse_results(c, kinds);
        let r2 = curse_results(c2, rest);
        assert(r =~= seq![curse_result(c, kinds[0])] + r2);
        assert forall|i: int| 1 <= i < kinds.len() implies r[i] == r2[i - 1] && kinds[i] == rest[i
            - 1] by {}
        assert(curse_used(c, k) ==> curse_used(c2, k));
        assert(r[0] == k ==> curse_used(c2, k));
    }
}

impl Curses {
    pub fn new() -> (r: Curses)
        ensures
            r == no_curses(),
    {
        Curses { clear: false, spin: false, bad: false }
    }
}

// ---------------------------------------------------------------------------
// Item draws
// ---------------------------------------------------------------------------

/// The random numbers that decide the item of a newly revealed room: whether
/// it gets one, of which kind, and on which tile.
#[derive(Clone, Copy, Debug, PartialEq, Eq, Structural)]
pub struct ItemDraw {
    pub chance: u32,
    pub kind: u32,
    pub x: u32,
    pub y: u32,
}

/// A room gets an item on one draw in two.
pub open spec fn draw_places(d: ItemDraw) -> bool {
    d.chance % 2 == 0
}

/// Each of the four kinds with the same weight.
pub open spec fn drawn_kind(d: ItemDraw) -> Item {
    let k = d.kind % 4;
    if k == 0 {
        Item::Clear
    } else if k == 1 {
        Item::Spin
    } else if k == 2 {
        Item::Bad
    } else {
        Item::Key
    }
}

/// A tile of the room's open interior, clear of the outer wall ring.
pub open spec fn drawn_tile(d: ItemDraw) -> (u32, u32) {
    ((4 + d.x % 8) as u32, (4 + d.y % 8) as u32)
}

impl ItemDraw {
    /// Draws the four numbers from the thread's generator.
    pub fn random() -> (r: ItemDraw) {
        let chance = random_u32();
        let kind = random_u32();
        let x = random_u32();
        let y = random_u32();
        ItemDraw { chance, kind, x, y }
    }

    pub(crate) fn kind_item(&self) -> (r: Item)
        ensures
            r == drawn_kind(*self),
    {
        let k = self.kind % 4;
        if k == 0 {
            Item::Clear
        } else if k == 1 {
            Item::Spin
        } else if k == 2 {
            Item::Bad
        } else {
            Item::Key
        }
    }

    pub(crate) fn tile(&self) -> (r: (u32, u32))
        ensures
            r == drawn_tile(*self),
    {
        (4 + self.x % 8, 4 + self.y % 8)
    }
}

} // verus!
