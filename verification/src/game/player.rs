//! Player details handling. Keeps track of the current player and emits the
//! next player, so other code need not calculate whose turn it is.
use vstd::prelude::*;

verus! {

/// Upper limit on the number of players in a game.
pub const MAX_PLAYERS: usize = 8;

/// Describes a player: a numeric id and a printable glyph.
#[derive(Debug, Copy, Clone, Hash, PartialEq, Eq, Structural)]
pub struct Player {
    pub number: usize,
    pub display: char,
}

/// The glyph that `create` gives player `number`: the capital letters start
/// at number 1.
pub open spec fn spec_glyph(number: int) -> char {
    if 0 <= number <= 26 {
        (64 + number) as u8 as char
    } else {
        '~'
    }
}

impl Player {
    pub fn new(number: usize, display: char) -> (r: Self)
        ensures
            r == (Player { number, display }),
    {
        Player { number, display }
    }

    pub fn number(&self) -> (r: usize)
        ensures
            r == self.number,
    {
        self.number
    }

    pub fn display(&self) -> (r: char)
        ensures
            r == self.display,
    {
        self.display
    }
}

impl Default for Player {
    /// The out-of-band sentinel player that no roster ever contains.
    fn default() -> (r: Self)
        ensures
            r.number == MAX_PLAYERS + 1,
            r.display == '~',
    {
        Player { number: MAX_PLAYERS + 1, display: '~' }
    }
}

/// Build the player a packed holding refers to by number alone.
pub fn create(number: usize) -> (r: Player)
    ensures
        r == (Player { number, display: spec_glyph(number as int) }),
{
    let display: char = if number <= 26 {
        (64 + number as u8) as char
    } else {
        '~'
    };
    Player { number, display }
}

/// The fixed roster slots: players 1 through 8, glyphs 'A' through 'H'.
pub open spec fn initial_slots() -> Seq<Option<Player>> {
    seq![
        Some(Player { number: 1, display: 'A' }),
        Some(Player { number: 2, display: 'B' }),
        Some(Player { number: 3, display: 'C' }),
        Some(Player { number: 4, display: 'D' }),
        Some(Player { number: 5, display: 'E' }),
        Some(Player { number: 6, display: 'F' }),
        Some(Player { number: 7, display: 'G' }),
        Some(Player { number: 8, display: 'H' }),
    ]
}

/// Player management rolled into one struct: an ordered ring of up to
/// `MAX_PLAYERS` slots with a current index, a playing set and an out set.
/// All operations are pure; they return a new roster.
#[derive(Debug, Clone, Hash)]
pub struct Players {
    pub players: usize,
    pub current: usize,
    pub count: usize,
    pub playing: Vec<Option<Player>>,
    pub out: Vec<Option<Player>>,
}

/// The mathematical model of a roster.
pub ghost struct PlayersView {
    pub players: usize,
    pub current: usize,
    pub count: usize,
    pub playing: Seq<Option<Player>>,
    pub out: Seq<Option<Player>>,
}

impl PlayersView {
    /// A roster is well formed when both slot arrays span `MAX_PLAYERS`
    /// entries, at least one player is playing, the current index points at
    /// a playing slot, and every playing slot up to `count` is occupied.
    pub open spec fn wf(self) -> bool {
        &&& self.playing.len() == MAX_PLAYERS
        &&& self.out.len() == MAX_PLAYERS
        &&& 1 <= self.count <= MAX_PLAYERS
        &&& self.current < self.count
        &&& forall|i: int| 0 <= i < self.count ==> (#[trigger] self.playing[i]) is Some
    }

    /// The player whose turn it is.
    pub open spec fn current_player(self) -> Player {
        self.playing[self.current as int].unwrap()
    }

    /// The roster after the current index advances, wrapping at `count`.
    pub open spec fn advanced(self) -> PlayersView {
        PlayersView {
            current: if self.current + 1 >= self.count {
                0
            } else {
                (self.current + 1) as usize
            },
            ..self
        }
    }

    /// The roster after the current player moves into the out slots. When
    /// only one player remains the roster is unchanged.
    pub open spec fn removed_current(self) -> PlayersView {
        if self.count == 1 {
            self
        } else {
            PlayersView {
                players: self.players,
                current: if self.current >= self.count - 1 {
                    0
                } else {
                    self.current
                },
                count: (self.count - 1) as usize,
                playing: shuffled_down(self.playing, self.current as int),
                out: self.out.update(self.current as int, self.playing[self.current as int]),
            }
        }
    }
}

/// Advancing the current index keeps a roster well formed.
pub proof fn lemma_advanced_wf(p: PlayersView)
    requires
        p.wf(),
    ensures
        p.advanced().wf(),
{
}

/// Removing the current player keeps a roster well formed.
pub proof fn lemma_removed_current_wf(p: PlayersView)
    requires
        p.wf(),
    ensures
        p.removed_current().wf(),
{
    if p.count > 1 {
        let r = p.removed_current();
        assert forall|i: int| 0 <= i < r.count implies (#[trigger] r.playing[i]) is Some by {
            if i >= p.current {
                assert(p.playing[i + 1] is Some);
            }
        }
    }
}

impl View for Players {
    type V = PlayersView;

    open spec fn view(&self) -> PlayersView {
        PlayersView {
            players: self.players,
            current: self.current,
            count: self.count,
            playing: self.playing@,
            out: self.out@,
        }
    }
}

impl Players {
    /// A roster is well formed when its model is.
    pub open spec fn wf(&self) -> bool {
        self@.wf()
    }

    /// The model of a fresh roster for the requested number of players.
    pub open spec fn new_view(players: int) -> PlayersView {
        PlayersView {
            players: clamp_player_count(players) as usize,
            current: 0,
            count: clamp_player_count(players) as usize,
            playing: initial_slots(),
            out: Seq::new(MAX_PLAYERS as nat, |i: int| None::<Player>),
        }
    }

    /// A new roster of `players` participants. A request above `MAX_PLAYERS`
    /// truncates to `MAX_PLAYERS`; one below 2 uses a minimum of 2. Every
    /// slot is filled; `count` bounds the active ring.
    pub fn new(players: usize) -> (r: Self)
        ensures
            r.wf(),
            r.players == clamp_player_count(players as int),
            r.count == clamp_player_count(players as int),
            r.current == 0,
            r.playing@ == initial_slots(),
            r.out@ == Seq::new(MAX_PLAYERS as nat, |i: int| None::<Player>),
            r@ == Players::new_view(players as int),
    {
        let players = if players > MAX_PLAYERS {
            MAX_PLAYERS
        } else if players < 2 {
            2
        } else {
            players
        };
        let mut playing: Vec<Option<Player>> = Vec::new();
        let mut index: usize = 0;
        while index < MAX_PLAYERS
            invariant
                0 <= index <= MAX_PLAYERS,
                playing@.len() == index,
                forall|i: int| 0 <= i < index ==> (#[trigger] playing@[i]) == initial_slots()[i],
            decreases MAX_PLAYERS - index,
        {
            let character: char = ((65 + index) as u8) as char;
            playing.push(Some(Player { number: index + 1, display: character }));
            index += 1;
        }
        let mut out: Vec<Option<Player>> = Vec::new();
        let mut index: usize = 0;
        while index < MAX_PLAYERS
            invariant
                0 <= index <= MAX_PLAYERS,
                out@.len() == index,
                forall|i: int| 0 <= i < index ==> (#[trigger] out@[i]) is None,
            decreases MAX_PLAYERS - index,
        {
            out.push(None);
            index += 1;
        }
        proof {
            assert(playing@ =~= initial_slots());
            assert(out@ =~= Seq::new(MAX_PLAYERS as nat, |i: int| None::<Player>));
        }
        Players { players, current: 0, count: players, playing, out }
    }

    /// How many players are still playing.
    pub fn player_count(&self) -> (r: usize)
        ensures
            r == self.count,
    {
        self.count
    }

    /// The player whose turn it is.
    pub fn current(&self) -> (r: Player)
        requires
            self.wf(),
        ensures
            r == self@.current_player(),
    {
        self.playing[self.current].unwrap()
    }

    /// A copy of self with the current player index advanced, wrapping at
    /// the end of the ring.
    pub fn next(&self) -> (r: Self)
        requires
            self.wf(),
        ensures
            r.wf(),
            r@ == self@.advanced(),
    {
        let mut new_self = self.duplicate();
        new_self.current = new_self.current + 1;
        if new_self.current >= self.count {
            new_self.current = 0;
        }
        new_self
    }

    /// A tile-for-tile copy of this roster.
    pub fn duplicate(&self) -> (r: Self)
        ensures
            r.players == self.players,
            r.current == self.current,
            r.count == self.count,
            r.playing@ == self.playing@,
            r.out@ == self.out@,
    {
        Players {
            players: self.players,
            current: self.current,
            count: self.count,
            playing: copy_slots(&self.playing),
            out: copy_slots(&self.out),
        }
    }

    /// The players still in the game, in ring order.
    pub fn playing(&self) -> (r: Vec<Player>)
        requires
            self.wf(),
        ensures
            r@.len() == self.count,
            forall|i: int| 0 <= i < self.count ==> (#[trigger] r@[i]) == self.playing@[i].unwrap(),
    {
        let mut r: Vec<Player> = Vec::new();
        let mut i: usize = 0;
        while i < self.count
            invariant
                self.wf(),
                0 <= i <= self.count,
                r@.len() == i,
                forall|j: int| 0 <= j < i ==> (#[trigger] r@[j]) == self.playing@[j].unwrap(),
            decreases self.count - i,
        {
            r.push(self.playing[i].unwrap());
            i += 1;
        }
        r
    }

    /// A new roster with the current player moved into the out slots: the
    /// count drops by one and the later players shuffle down. Removing the
    /// last playing player is a no-op.
    pub fn remove_current(&self) -> (r: Self)
        requires
            self.wf(),
        ensures
            r.wf(),
            r@ == self@.removed_current(),
    {
        if self.count == 1 {
            return self.duplicate();
        }
        let mut playing: Vec<Option<Player>> = Vec::new();
        let mut j: usize = 0;
        while j < MAX_PLAYERS
            invariant
                self.wf(),
                self.count > 1,
                0 <= j <= MAX_PLAYERS,
                playing@.len() == j,
                forall|i: int|
                    0 <= i < j ==> (#[trigger] playing@[i]) == shuffled_down(
                        self.playing@,
                        self.current as int,
                    )[i],
            decreases MAX_PLAYERS - j,
        {
            let slot: Option<Player> = if j < self.current {
                self.playing[j]
            } else if j + 1 < MAX_PLAYERS {
                match self.playing[j + 1] {
                    Some(p) => Some(p),
                    None => None,
                }
            } else {
                None
            };
            playing.push(slot);
            j += 1;
        }
        let mut out = copy_slots(&self.out);
        out.set(self.current, self.playing[self.current]);
        let count = self.count - 1;
        let current = if self.current >= count {
            0
        } else {
            self.current
        };
        proof {
            assert(playing@ =~= shuffled_down(self.playing@, self.current as int));
            assert(out@ =~= self.out@.update(self.current as int, self.playing@[self.current as int]));
        }
        Players { players: self.players, current, count, playing, out }
    }
}

/// Clamp a requested player count into the accepted range.
pub open spec fn clamp_player_count(players: int) -> int {
    if players > MAX_PLAYERS {
        MAX_PLAYERS as int
    } else if players < 2 {
        2
    } else {
        players
    }
}

/// The playing slots after the entry at `current` leaves: entries below
/// `current` stay, every later slot takes its successor's occupant, and the
/// last slot empties.
pub open spec fn shuffled_down(slots: Seq<Option<Player>>, current: int) -> Seq<Option<Player>> {
    Seq::new(
        slots.len(),
        |i: int|
            if i < current {
                slots[i]
            } else if i + 1 < slots.len() && slots[i + 1] is Some {
                slots[i + 1]
            } else {
                None
            },
    )
}

/// Copy a slot vector.
fn copy_slots(slots: &Vec<Option<Player>>) -> (r: Vec<Option<Player>>)
    ensures
        r@ == slots@,
{
    let n = slots.len();
    let mut r: Vec<Option<Player>> = Vec::new();
    let mut i: usize = 0;
    while i < n
        invariant
            0 <= i <= n,
            n == slots@.len(),
            r@.len() == i,
            forall|j: int| 0 <= j < i ==> (#[trigger] r@[j]) == slots@[j],
        decreases n - i,
    {
        r.push(slots[i]);
        i += 1;
    }
    proof {
        assert(r@ =~= slots@);
    }
    r
}

/// Exec equality on two slot vectors, tied to their sequence views.
pub fn slots_eq(a: &Vec<Option<Player>>, b: &Vec<Option<Player>>) -> (r: bool)
    ensures
        r <==> a@ == b@,
{
    let n = a.len();
    if n != b.len() {
        proof {
            assert(a@ !~= b@);
        }
        return false;
    }
    let mut i: usize = 0;
    while i < n
        invariant
            0 <= i <= n,
            n == a@.len(),
            n == b@.len(),
            forall|j: int| 0 <= j < i ==> (#[trigger] a@[j]) == b@[j],
        decreases n - i,
    {
        let same = match (&a[i], &b[i]) {
            (Some(x), Some(y)) => *x == *y,
            (None, None) => true,
            _ => false,
        };
        if !same {
            proof {
                assert(a@[i as int] != b@[i as int]);
            }
            return false;
        }
        i += 1;
    }
    proof {
        assert(a@ =~= b@);
    }
    true
}

impl PartialEq for Players {
    /// Structural equality over every field, so that any change in turn
    /// order distinguishes rosters.
    fn eq(&self, other: &Players) -> (r: bool) {
        self.players == other.players && self.current == other.current && self.count == other.count
            && slots_eq(&self.playing, &other.playing) && slots_eq(&self.out, &other.out)
    }
}

impl vstd::std_specs::cmp::PartialEqSpecImpl for Players {
    open spec fn obeys_eq_spec() -> bool {
        true
    }

    open spec fn eq_spec(&self, other: &Players) -> bool {
        &&& self.players == other.players
        &&& self.current == other.current
        &&& self.count == other.count
        &&& self.playing@ == other.playing@
        &&& self.out@ == other.out@
    }
}

impl Eq for Players {

}

} // verus!
