//! Game data structures.
use vstd::prelude::*;

use crate::game::player::create;
use crate::game::player::spec_glyph;
use crate::game::player::Player;
use crate::game::player::Players;
use crate::game::player::PlayersView;
use crate::hexagon::coordinate::Cube;
use crate::hexagon::grid::Grid;
use crate::hexagon::grid::Shape;

verus! {

/// A tile's territorial state read three ways: owner, dice count and
/// mobility. The representation may be a record or a packed byte; the
/// contract is the trio of accessors.
pub trait Holding: Sized + Copy {
    /// What `new` stores for the given trio.
    spec fn new_spec(owner: Player, dice: u8, mobile: bool) -> Self;

    /// The owner this holding records.
    spec fn spec_owner(&self) -> Player;

    /// The dice count this holding records.
    spec fn spec_dice(&self) -> u8;

    /// The mobile flag this holding records.
    spec fn spec_mobile(&self) -> bool;

    fn new(owner: Player, dice: u8, mobile: bool) -> (r: Self)
        ensures
            r == Self::new_spec(owner, dice, mobile),
    ;

    fn owner(&self) -> (r: Player)
        ensures
            r == self.spec_owner(),
    ;

    fn dice(&self) -> (r: u8)
        ensures
            r == self.spec_dice(),
    ;

    fn mobile(&self) -> (r: bool)
        ensures
            r == self.spec_mobile(),
    ;
}

/// The owner number a packed holding stores: the low three bits.
pub open spec fn packed_owner_num(h: u8) -> u8 {
    h % 8
}

/// The dice count a packed holding stores: the next three bits.
pub open spec fn packed_dice(h: u8) -> u8 {
    (h / 8 % 8) as u8
}

/// The mobile flag a packed holding stores: the seventh bit.
pub open spec fn packed_mobile(h: u8) -> bool {
    h / 64 % 2 == 1
}

/// The packed byte for a trio: owner number in the low three bits, dice in
/// the next three, mobility in the seventh. Owner numbers and dice counts
/// beyond three bits are truncated, as only their low bits fit.
pub open spec fn pack_holding(owner: Player, dice: u8, mobile: bool) -> u8 {
    (owner.number % 8 + dice % 8 * 8 + if mobile {
        64int
    } else {
        0int
    }) as u8
}

impl Holding for u8 {
    open spec fn new_spec(owner: Player, dice: u8, mobile: bool) -> u8 {
        pack_holding(owner, dice, mobile)
    }

    open spec fn spec_owner(&self) -> Player {
        Player {
            number: packed_owner_num(*self) as usize,
            display: spec_glyph(packed_owner_num(*self) as int),
        }
    }

    open spec fn spec_dice(&self) -> u8 {
        packed_dice(*self)
    }

    open spec fn spec_mobile(&self) -> bool {
        packed_mobile(*self)
    }

    fn new(owner: Player, dice: u8, mobile: bool) -> (r: u8) {
        let player_num: u8 = (owner.number % 8) as u8;
        let dice_bits: u8 = dice % 8 * 8;
        let mobile_bit: u8 = if mobile {
            64
        } else {
            0
        };
        player_num + dice_bits + mobile_bit
    }

    fn owner(&self) -> (r: Player) {
        create((*self % 8) as usize)
    }

    fn dice(&self) -> (r: u8) {
        *self / 8 % 8
    }

    fn mobile(&self) -> (r: bool) {
        *self / 64 % 2 == 1
    }
}

/// A territorial hold on a particular tile, as a plain record.
#[derive(Debug, Copy, Clone, Hash, PartialEq, Eq, Structural)]
pub struct Hold {
    /// AKA the player.
    pub owner: Player,

    /// We're assuming D6's here.
    pub dice: u8,

    /// Barred from moving if false.
    pub mobile: bool,
}

impl Holding for Hold {
    open spec fn new_spec(owner: Player, dice: u8, mobile: bool) -> Hold {
        Hold { owner, dice, mobile }
    }

    open spec fn spec_owner(&self) -> Player {
        self.owner
    }

    open spec fn spec_dice(&self) -> u8 {
        self.dice
    }

    open spec fn spec_mobile(&self) -> bool {
        self.mobile
    }

    fn new(owner: Player, dice: u8, mobile: bool) -> (r: Hold) {
        Hold { owner, dice, mobile }
    }

    fn owner(&self) -> (r: Player) {
        self.owner
    }

    fn dice(&self) -> (r: u8) {
        self.dice
    }

    fn mobile(&self) -> (r: bool) {
        self.mobile
    }
}

impl Default for Hold {
    fn default() -> (r: Self)
        ensures
            r == (Hold { owner: Player { number: 9, display: '~' }, dice: 0u8, mobile: true }),
    {
        Hold { owner: Player::default(), dice: 0, mobile: true }
    }
}

/// Scoring for each move, present once scoring calculations have run.
/// The destination is an exact fraction in [0, 1]: 1 means a win, 0 a loss,
/// anything between a stalemate of some degree. The distance says how far
/// away that end state still is; closer is better.
#[derive(Debug, Copy, Clone, Hash, PartialEq, Eq, Structural)]
pub struct Score {
    pub destination_num: u64,
    pub destination_den: u64,
    pub distance: usize,
}

impl Score {
    /// A meaningful score keeps its destination fraction inside [0, 1].
    pub open spec fn wf(self) -> bool {
        self.destination_den >= 1 && self.destination_num <= self.destination_den
    }

    pub fn new(destination_num: u64, destination_den: u64, distance: usize) -> (r: Self)
        requires
            destination_den >= 1,
            destination_num <= destination_den,
        ensures
            r == (Score { destination_num, destination_den, distance }),
            r.wf(),
    {
        Score { destination_num, destination_den, distance }
    }

    pub fn destination_num(&self) -> (r: u64)
        ensures
            r == self.destination_num,
    {
        self.destination_num
    }

    pub fn destination_den(&self) -> (r: u64)
        ensures
            r == self.destination_den,
    {
        self.destination_den
    }

    pub fn distance(&self) -> (r: usize)
        ensures
            r == self.distance,
    {
        self.distance
    }

    /// The same destination, one step further away.
    pub fn increment_distance(&self) -> (r: Self)
        requires
            self.distance < usize::MAX,
        ensures
            r == (Score {
                destination_num: self.destination_num,
                destination_den: self.destination_den,
                distance: (self.distance + 1) as usize,
            }),
    {
        Score {
            destination_num: self.destination_num,
            destination_den: self.destination_den,
            distance: self.distance + 1,
        }
    }

    /// The same destination, one step further away, holding still at the
    /// far end of the distance range.
    pub fn saturating_increment_distance(&self) -> (r: Self)
        ensures
            r.destination_num == self.destination_num,
            r.destination_den == self.destination_den,
            r.distance == if self.distance < usize::MAX {
                self.distance + 1
            } else {
                usize::MAX as int
            },
    {
        if self.distance < usize::MAX {
            self.increment_distance()
        } else {
            *self
        }
    }
}

/// Initialize with the worst possible score.
impl Default for Score {
    fn default() -> (r: Self)
        ensures
            r == (Score { destination_num: 0u64, destination_den: 1u64, distance: 0usize }),
            r.wf(),
    {
        Score { destination_num: 0, destination_den: 1, distance: 0 }
    }
}

/// How two scores compare: destination fractions compare as rationals by
/// cross multiplication and dominate; at equal destination a smaller
/// distance is greater, since a closer outcome is preferred.
pub open spec fn score_cmp(a: Score, b: Score) -> core::cmp::Ordering {
    if a.destination_num * b.destination_den < b.destination_num * a.destination_den {
        core::cmp::Ordering::Less
    } else if a.destination_num * b.destination_den > b.destination_num * a.destination_den {
        core::cmp::Ordering::Greater
    } else if a.distance > b.distance {
        core::cmp::Ordering::Less
    } else if a.distance < b.distance {
        core::cmp::Ordering::Greater
    } else {
        core::cmp::Ordering::Equal
    }
}

/// `a` compares less-or-equal to `b` under the score ordering.
pub open spec fn score_le(a: Score, b: Score) -> bool {
    score_cmp(a, b) is Less || score_cmp(a, b) is Equal
}

/// `a` and `b` denote the same point: equal destination fractions and equal
/// distance.
pub open spec fn score_equiv(a: Score, b: Score) -> bool {
    a.destination_num * b.destination_den == b.destination_num * a.destination_den && a.distance
        == b.distance
}

impl PartialOrd for Score {
    /// Custom order since, at equal destination, a smaller distance is
    /// better.
    fn partial_cmp(&self, other: &Score) -> (r: Option<core::cmp::Ordering>) {
        proof {
            assert(self.destination_num * other.destination_den
                < 0x1_0000_0000_0000_0000_0000_0000_0000_0000int) by (nonlinear_arith)
                requires
                    self.destination_num < 0x1_0000_0000_0000_0000int,
                    other.destination_den < 0x1_0000_0000_0000_0000int,
            ;
            assert(other.destination_num * self.destination_den
                < 0x1_0000_0000_0000_0000_0000_0000_0000_0000int) by (nonlinear_arith)
                requires
                    other.destination_num < 0x1_0000_0000_0000_0000int,
                    self.destination_den < 0x1_0000_0000_0000_0000int,
            ;
        }
        let left: u128 = self.destination_num as u128 * other.destination_den as u128;
        let right: u128 = other.destination_num as u128 * self.destination_den as u128;
        if left < right {
            Some(core::cmp::Ordering::Less)
        } else if left > right {
            Some(core::cmp::Ordering::Greater)
        } else if self.distance > other.distance {
            Some(core::cmp::Ordering::Less)
        } else if self.distance < other.distance {
            Some(core::cmp::Ordering::Greater)
        } else {
            Some(core::cmp::Ordering::Equal)
        }
    }
}

impl vstd::std_specs::cmp::PartialOrdSpecImpl for Score {
    open spec fn obeys_partial_cmp_spec() -> bool {
        true
    }

    open spec fn partial_cmp_spec(&self, other: &Score) -> Option<core::cmp::Ordering> {
        Some(score_cmp(*self, *other))
    }
}

/// The score ordering is reflexive.
pub proof fn lemma_score_order_reflexive(a: Score)
    ensures
        score_le(a, a),
{
}

/// The score ordering is total: any two scores compare.
pub proof fn lemma_score_order_total(a: Score, b: Score)
    ensures
        score_le(a, b) || score_le(b, a),
{
}

/// The score ordering is antisymmetric up to equivalence: two scores that
/// compare below each other denote the same destination and distance.
pub proof fn lemma_score_order_antisymmetric(a: Score, b: Score)
    requires
        score_le(a, b),
        score_le(b, a),
    ensures
        score_equiv(a, b),
{
}

/// The score ordering is transitive.
pub proof fn lemma_score_order_transitive(a: Score, b: Score, c: Score)
    requires
        a.wf(),
        b.wf(),
        c.wf(),
        score_le(a, b),
        score_le(b, c),
    ensures
        score_le(a, c),
{
    let ab = a.destination_num * b.destination_den <= b.destination_num * a.destination_den;
    let bc = b.destination_num * c.destination_den <= c.destination_num * b.destination_den;
    assert(ab && bc);
    assert(a.destination_num * c.destination_den <= c.destination_num * a.destination_den)
        by (nonlinear_arith)
        requires
            a.destination_num * b.destination_den <= b.destination_num * a.destination_den,
            b.destination_num * c.destination_den <= c.destination_num * b.destination_den,
            a.destination_den >= 1,
            b.destination_den >= 1,
            c.destination_den >= 1,
    ;
    if a.destination_num * c.destination_den == c.destination_num * a.destination_den {
        if a.destination_num * b.destination_den == b.destination_num * a.destination_den
            && b.destination_num * c.destination_den == c.destination_num * b.destination_den {
        } else {
            assert(a.destination_num * c.destination_den < c.destination_num * a.destination_den)
                by (nonlinear_arith)
                requires
                    a.destination_num * b.destination_den <= b.destination_num * a.destination_den,
                    b.destination_num * c.destination_den <= c.destination_num * b.destination_den,
                    !(a.destination_num * b.destination_den == b.destination_num
                        * a.destination_den && b.destination_num * c.destination_den
                        == c.destination_num * b.destination_den),
                    a.destination_den >= 1,
                    b.destination_den >= 1,
                    c.destination_den >= 1,
            ;
        }
    }
}

/// At equal destination, the smaller distance compares greater.
pub proof fn lemma_score_closer_is_greater(a: Score, b: Score)
    requires
        a.destination_num * b.destination_den == b.destination_num * a.destination_den,
        a.distance < b.distance,
    ensures
        score_cmp(a, b) is Greater,
{
}

pub type FromHex = Cube;

pub type ToHex = Cube;

pub type Capturing = u8;

pub type AttackerDice = u8;

pub type DefenderDice = u8;

/// A legal player action that will advance the game state.
#[derive(Debug, Copy, Clone, PartialEq, Eq, Structural)]
pub enum Action {
    Attack(FromHex, ToHex, AttackerDice, DefenderDice),
    Pass,
}

impl Action {
    /// The amount of dice that the move will capture.
    pub fn capturing(&self) -> (r: u8)
        ensures
            r == match *self {
                Action::Attack(_, _, _, dd) => dd,
                Action::Pass => 0u8,
            },
    {
        match self {
            Action::Attack(_, _, _, dd) => *dd,
            Action::Pass => 0,
        }
    }
}

/// The mathematical model of a board: the roster model, the grid shape and
/// tile sequence, and the two per-turn counters.
pub ghost struct BoardView {
    pub players: PlayersView,
    pub shape: Shape,
    pub tiles: Seq<(Cube, u8)>,
    pub captured_dice: u16,
    pub moved: u16,
}

/// Every tile of the sequence holds at most `MAX_DICE` dice.
pub open spec fn tiles_dice_bounded(tiles: Seq<(Cube, u8)>) -> bool {
    forall|i: int| 0 <= i < tiles.len() ==> packed_dice((#[trigger] tiles[i]).1) <= 5
}

/// Every coordinate of the sequence is well formed.
pub open spec fn tiles_coords_wf(tiles: Seq<(Cube, u8)>) -> bool {
    forall|i: int|
        0 <= i < tiles.len() ==> (#[trigger] tiles[i]).0.zero_sum() && tiles[i].0.bounded()
}

impl BoardView {
    /// A board is well formed when its roster is, its coordinates are, no
    /// tile exceeds the dice cap, and the captured counter respects the
    /// bound that construction from byte-sized counters and legal play
    /// maintain.
    pub open spec fn wf(self) -> bool {
        &&& self.players.wf()
        &&& tiles_coords_wf(self.tiles)
        &&& tiles_dice_bounded(self.tiles)
        &&& self.captured_dice <= 255 + 5 * self.moved
    }
}

/// The full state of the game. Represents an iteration of play; it is never
/// mutated after construction.
#[derive(Debug, Clone)]
pub struct Board {
    pub players: Players,
    pub grid: Grid<u8>,
    pub captured_dice: u16,
    pub moved: u16,
}

impl View for Board {
    type V = BoardView;

    open spec fn view(&self) -> BoardView {
        BoardView {
            players: self.players@,
            shape: self.grid.shape,
            tiles: self.grid.tiles@,
            captured_dice: self.captured_dice,
            moved: self.moved,
        }
    }
}

impl Board {
    /// A board is well formed when its model is.
    pub open spec fn wf(&self) -> bool {
        self@.wf()
    }

    pub fn new(players: Players, grid: Grid<u8>, captured_dice: u8, moved: u8) -> (r: Self)
        ensures
            r@.players == players@,
            r@.shape == grid.shape,
            r@.tiles == grid.tiles@,
            r@.captured_dice == captured_dice,
            r@.moved == moved,
            players.wf() && grid.wf() && tiles_dice_bounded(grid.tiles@) ==> r.wf(),
    {
        Board { players, grid, captured_dice: captured_dice as u16, moved: moved as u16 }
    }

    pub fn players(&self) -> (r: &Players)
        ensures
            r@ == self@.players,
    {
        &self.players
    }

    pub fn grid(&self) -> (r: &Grid<u8>)
        ensures
            r.shape == self@.shape,
            r.tiles@ == self@.tiles,
    {
        &self.grid
    }

    pub fn captured_dice(&self) -> (r: u16)
        ensures
            r == self@.captured_dice,
    {
        self.captured_dice
    }

    pub fn moved(&self) -> (r: u16)
        ensures
            r == self@.moved,
    {
        self.moved
    }

    /// A copy of this board, field for field.
    pub fn duplicate(&self) -> (r: Self)
        ensures
            r@ == self@,
    {
        Board {
            players: self.players.duplicate(),
            grid: self.grid.duplicate(),
            captured_dice: self.captured_dice,
            moved: self.moved,
        }
    }
}

impl PartialEq for Board {
    /// Structural equality: same roster, identical tile contents in the
    /// stable iteration order, and identical counters.
    fn eq(&self, other: &Board) -> (r: bool) {
        self.players == other.players && self.grid == other.grid && self.captured_dice
            == other.captured_dice && self.moved == other.moved
    }
}

impl vstd::std_specs::cmp::PartialEqSpecImpl for Board {
    open spec fn obeys_eq_spec() -> bool {
        true
    }

    open spec fn eq_spec(&self, other: &Board) -> bool {
        self@ == other@
    }
}

impl Eq for Board {

}

/// The tag of a consequence, apart from the board it carries.
#[derive(Debug, Copy, Clone, PartialEq, Eq, Structural)]
pub enum ConsequenceKind {
    Stalemate,
    Continue,
    TurnOver,
    GameOver,
    Winner,
}

/// What follows from an action: the classification of the post-action
/// board.
#[derive(Debug, Clone)]
pub enum Consequence {
    Stalemate(Board),
    Continue(Board),
    TurnOver(Board),
    GameOver(Board),
    Winner(Board),
}

impl Consequence {
    /// The tag of this consequence.
    pub open spec fn kind(&self) -> ConsequenceKind {
        match *self {
            Consequence::Stalemate(_) => ConsequenceKind::Stalemate,
            Consequence::Continue(_) => ConsequenceKind::Continue,
            Consequence::TurnOver(_) => ConsequenceKind::TurnOver,
            Consequence::GameOver(_) => ConsequenceKind::GameOver,
            Consequence::Winner(_) => ConsequenceKind::Winner,
        }
    }

    /// The board this consequence carries.
    pub open spec fn spec_board(&self) -> Board {
        match *self {
            Consequence::Stalemate(b) => b,
            Consequence::Continue(b) => b,
            Consequence::TurnOver(b) => b,
            Consequence::GameOver(b) => b,
            Consequence::Winner(b) => b,
        }
    }

    pub fn board(&self) -> (r: &Board)
        ensures
            r@ == self.spec_board()@,
    {
        match self {
            Consequence::Stalemate(b) => b,
            Consequence::Continue(b) => b,
            Consequence::TurnOver(b) => b,
            Consequence::GameOver(b) => b,
            Consequence::Winner(b) => b,
        }
    }
}

/// The mathematical model of a choice.
pub ghost struct ChoiceView {
    pub action: Action,
    pub kind: ConsequenceKind,
    pub board: BoardView,
    pub score: Option<Score>,
}

/// A `Choice`: an `Action` paired with its `Consequence`. The score is
/// filled in once scoring runs; it is the only part of the state graph that
/// changes after construction.
#[derive(Debug, Clone)]
pub struct Choice {
    pub action: Action,
    pub consequence: Consequence,
    pub score: Option<Score>,
}

impl View for Choice {
    type V = ChoiceView;

    open spec fn view(&self) -> ChoiceView {
        ChoiceView {
            action: self.action,
            kind: self.consequence.kind(),
            board: self.consequence.spec_board()@,
            score: self.score,
        }
    }
}

impl Choice {
    pub fn new(action: Action, consequence: Consequence) -> (r: Self)
        ensures
            r.action == action,
            r@.kind == consequence.kind(),
            r@.board == consequence.spec_board()@,
            r.score is None,
    {
        Choice { action, consequence, score: None }
    }

    pub fn action(&self) -> (r: &Action)
        ensures
            *r == self.action,
    {
        &self.action
    }

    pub fn consequence(&self) -> (r: &Consequence)
        ensures
            r.kind() == self@.kind,
            r.spec_board()@ == self@.board,
    {
        &self.consequence
    }

    pub fn score(&self) -> (r: Option<Score>)
        ensures
            r == self.score,
    {
        self.score
    }

    pub fn set_score(&mut self, score: Score)
        ensures
            final(self).action == old(self).action,
            final(self).consequence == old(self).consequence,
            final(self).score == Some(score),
    {
        self.score = Some(score);
    }

    pub fn clear_score(&mut self)
        ensures
            final(self).action == old(self).action,
            final(self).consequence == old(self).consequence,
            final(self).score is None,
    {
        self.score = None;
    }
}

impl Consequence {
    /// A copy of this consequence, board and all.
    pub fn duplicate(&self) -> (r: Self)
        ensures
            r.kind() == self.kind(),
            r.spec_board()@ == self.spec_board()@,
    {
        match self {
            Consequence::Stalemate(b) => Consequence::Stalemate(b.duplicate()),
            Consequence::Continue(b) => Consequence::Continue(b.duplicate()),
            Consequence::TurnOver(b) => Consequence::TurnOver(b.duplicate()),
            Consequence::GameOver(b) => Consequence::GameOver(b.duplicate()),
            Consequence::Winner(b) => Consequence::Winner(b.duplicate()),
        }
    }
}

impl Choice {
    /// A copy of this choice, score included.
    pub fn duplicate(&self) -> (r: Self)
        ensures
            r@ == self@,
            r.action == self.action,
            r.score == self.score,
            r.consequence.kind() == self.consequence.kind(),
            r.consequence.spec_board()@ == self.consequence.spec_board()@,
    {
        Choice {
            action: self.action,
            consequence: self.consequence.duplicate(),
            score: self.score,
        }
    }
}

/// The views of a choice list, in order.
pub open spec fn choices_views(cs: Seq<Choice>) -> Seq<ChoiceView> {
    cs.map_values(|c: Choice| c@)
}

/// The dictionary that a state list denotes: later entries shadow earlier
/// ones, though a well-formed tree never repeats a key.
pub open spec fn assoc_map(s: Seq<(Board, Vec<Choice>)>) -> Map<BoardView, Seq<ChoiceView>>
    decreases s.len(),
{
    if s.len() == 0 {
        Map::empty()
    } else {
        assoc_map(s.drop_last()).insert(s.last().0@, choices_views(s.last().1@))
    }
}

/// Membership in the dictionary is the existence of an entry with that key.
pub proof fn lemma_assoc_map_contains(s: Seq<(Board, Vec<Choice>)>, k: BoardView)
    ensures
        assoc_map(s).contains_key(k) <==> exists|i: int| 0 <= i < s.len() && (#[trigger] s[i]).0@
            == k,
    decreases s.len(),
{
    if s.len() > 0 {
        lemma_assoc_map_contains(s.drop_last(), k);
        if s.last().0@ == k {
            assert(s[s.len() - 1].0@ == k);
        } else {
            if exists|i: int| 0 <= i < s.len() && (#[trigger] s[i]).0@ == k {
                let i = choose|i: int| 0 <= i < s.len() && (#[trigger] s[i]).0@ == k;
                assert(s.drop_last()[i] == s[i]);
            }
            if exists|i: int| 0 <= i < s.drop_last().len() && (#[trigger] s.drop_last()[i]).0@
                == k {
                let i = choose|i: int|
                    0 <= i < s.drop_last().len() && (#[trigger] s.drop_last()[i]).0@ == k;
                assert(s[i] == s.drop_last()[i]);
            }
        }
    }
}

/// An entry that no later entry shadows gives the dictionary's value at its
/// key.
pub proof fn lemma_assoc_map_value(s: Seq<(Board, Vec<Choice>)>, i: int)
    requires
        0 <= i < s.len(),
        forall|j: int| i < j < s.len() ==> (#[trigger] s[j]).0@ != s[i].0@,
    ensures
        assoc_map(s).contains_key(s[i].0@),
        assoc_map(s)[s[i].0@] == choices_views(s[i].1@),
    decreases s.len(),
{
    lemma_assoc_map_contains(s, s[i].0@);
    if i == s.len() - 1 {
    } else {
        assert(s.last().0@ != s[i].0@);
        assert(s.drop_last()[i] == s[i]);
        assert forall|j: int| i < j < s.drop_last().len() implies (#[trigger] s.drop_last()[j]).0@
            != s.drop_last()[i].0@ by {
            assert(s.drop_last()[j] == s[j]);
        }
        lemma_assoc_map_value(s.drop_last(), i);
    }
}

/// Putting an entry underneath a state list changes nothing that the list
/// already answers for; only its new key gains the entry's value.
pub proof fn lemma_assoc_map_prepend(e: (Board, Vec<Choice>), s: Seq<(Board, Vec<Choice>)>)
    ensures
        forall|k: BoardView|
            assoc_map(seq![e] + s).contains_key(k) <==> (#[trigger] assoc_map(s).contains_key(k)
                || k == e.0@),
        forall|k: BoardView|
            assoc_map(s).contains_key(k) ==> assoc_map(seq![e] + s)[k] == #[trigger] assoc_map(
                s,
            )[k],
        !assoc_map(s).contains_key(e.0@) ==> assoc_map(seq![e] + s)[e.0@] == choices_views(e.1@),
    decreases s.len(),
{
    if s.len() == 0 {
        assert(seq![e] + s =~= seq![e]);
        assert((seq![e]).drop_last() =~= Seq::<(Board, Vec<Choice>)>::empty());
        assert((seq![e]).last() == e);
        assert(assoc_map(Seq::<(Board, Vec<Choice>)>::empty()) == Map::<
            BoardView,
            Seq<ChoiceView>,
        >::empty());
        assert(assoc_map(seq![e]) == Map::<BoardView, Seq<ChoiceView>>::empty().insert(
            e.0@,
            choices_views(e.1@),
        ));
    } else {
        lemma_assoc_map_prepend(e, s.drop_last());
        assert((seq![e] + s).drop_last() =~= seq![e] + s.drop_last());
        assert((seq![e] + s).last() == s.last());
        assert(assoc_map(seq![e] + s) == assoc_map(seq![e] + s.drop_last()).insert(
            s.last().0@,
            choices_views(s.last().1@),
        ));
        assert(assoc_map(s) == assoc_map(s.drop_last()).insert(
            s.last().0@,
            choices_views(s.last().1@),
        ));
        assert forall|k: BoardView|
            assoc_map(seq![e] + s).contains_key(k) <==> (#[trigger] assoc_map(s).contains_key(k)
                || k == e.0@) by {
            if k == s.last().0@ {
            } else {
                assert(assoc_map(seq![e] + s).contains_key(k) <==> assoc_map(
                    seq![e] + s.drop_last(),
                ).contains_key(k));
                assert(assoc_map(s).contains_key(k) <==> assoc_map(s.drop_last()).contains_key(k));
            }
        }
        assert forall|k: BoardView| assoc_map(s).contains_key(k) implies assoc_map(seq![e] + s)[k]
            == #[trigger] assoc_map(s)[k] by {
            if k == s.last().0@ {
            } else {
                assert(assoc_map(s.drop_last()).contains_key(k));
            }
        }
        if !assoc_map(s).contains_key(e.0@) {
            assert(!assoc_map(s.drop_last()).contains_key(e.0@));
            assert(e.0@ != s.last().0@);
        }
    }
}

/// Whether a state list already holds an entry for the board.
pub fn states_contain(states: &Vec<(Board, Vec<Choice>)>, board: &Board) -> (r: bool)
    ensures
        r <==> assoc_map(states@).contains_key(board@),
{
    proof {
        lemma_assoc_map_contains(states@, board@);
    }
    let n = states.len();
    let mut i: usize = 0;
    while i < n
        invariant
            0 <= i <= n,
            n == states@.len(),
            forall|j: int| 0 <= j < i ==> (#[trigger] states@[j]).0@ != board@,
        decreases n - i,
    {
        if states[i].0 == *board {
            proof {
                lemma_assoc_map_contains(states@, board@);
            }
            return true;
        }
        i += 1;
    }
    false
}

/// The game tree: a root board plus the dictionary from each expanded board
/// to the choices its current player may take.
#[derive(Debug, Clone)]
pub struct Tree {
    pub root: Board,
    pub states: Vec<(Board, Vec<Choice>)>,
}

impl Tree {
    /// The dictionary this tree holds.
    pub open spec fn states_map(&self) -> Map<BoardView, Seq<ChoiceView>> {
        assoc_map(self.states@)
    }

    /// A tree is well formed when no two entries share a key.
    pub open spec fn wf(&self) -> bool {
        forall|i: int, j: int|
            0 <= i < j < self.states@.len() ==> (#[trigger] self.states@[i]).0@ != (
            #[trigger] self.states@[j]).0@
    }

    pub fn new(root: Board, states: Vec<(Board, Vec<Choice>)>) -> (r: Self)
        ensures
            r.root == root,
            r.states == states,
    {
        Tree { root, states }
    }

    pub fn empty(root: Board) -> (r: Self)
        ensures
            r.root == root,
            r.states@.len() == 0,
            r.wf(),
            r.states_map() == Map::<BoardView, Seq<ChoiceView>>::empty(),
    {
        Tree { root, states: Vec::new() }
    }

    pub fn root(&self) -> (r: &Board)
        ensures
            r@ == self.root@,
    {
        &self.root
    }

    /// Convenience lookup saving on calling the getters.
    pub fn fetch_choices(&self, board: &Board) -> (r: Option<&Vec<Choice>>)
        requires
            self.wf(),
        ensures
            match r {
                Some(cs) => self.states_map().contains_key(board@) && choices_views(cs@)
                    == self.states_map()[board@],
                None => !self.states_map().contains_key(board@),
            },
    {
        let n = self.states.len();
        let mut i: usize = 0;
        while i < n
            invariant
                self.wf(),
                0 <= i <= n,
                n == self.states@.len(),
                forall|j: int| 0 <= j < i ==> (#[trigger] self.states@[j]).0@ != board@,
            decreases n - i,
        {
            if self.states[i].0 == *board {
                proof {
                    lemma_assoc_map_value(self.states@, i as int);
                }
                return Some(&self.states[i].1);
            }
            i += 1;
        }
        proof {
            lemma_assoc_map_contains(self.states@, board@);
        }
        None
    }

    /// Merge a fresh expansion into this tree, skipping keys already
    /// present: the dictionary grows monotonically and never rewrites an
    /// entry.
    pub fn append(&mut self, extra: Vec<(Board, Vec<Choice>)>)
        requires
            old(self).wf(),
        ensures
            final(self).root@ == old(self).root@,
            final(self).wf(),
            forall|k: BoardView|
                final(self).states_map().contains_key(k) <==> (#[trigger] old(
                    self,
                ).states_map().contains_key(k) || assoc_map(extra@).contains_key(k)),
            forall|k: BoardView|
                old(self).states_map().contains_key(k) ==> final(self).states_map()[k]
                    == #[trigger] old(self).states_map()[k],
            forall|k: BoardView|
                !old(self).states_map().contains_key(k) && assoc_map(extra@).contains_key(k)
                    ==> final(self).states_map()[k] == #[trigger] assoc_map(extra@)[k],
    {
        let ghost extra0 = extra@;
        let ghost old_map = old(self).states_map();
        let mut extra = extra;
        while extra.len() > 0
            invariant
                self.wf(),
                self.root@ == old(self).root@,
                old_map == old(self).states_map(),
                extra@.len() <= extra0.len(),
                extra@ == extra0.take(extra@.len() as int),
                forall|k: BoardView|
                    self.states_map().contains_key(k) <==> (#[trigger] old_map.contains_key(k)
                        || assoc_map(extra0.skip(extra@.len() as int)).contains_key(k)),
                forall|k: BoardView|
                    old_map.contains_key(k) ==> self.states_map()[k] == #[trigger] old_map[k],
                forall|k: BoardView|
                    !old_map.contains_key(k) && assoc_map(
                        extra0.skip(extra@.len() as int),
                    ).contains_key(k) ==> self.states_map()[k] == #[trigger] assoc_map(
                        extra0.skip(extra@.len() as int),
                    )[k],
            decreases extra@.len(),
        {
            let ghost rem_before = extra@.len() as int;
            let ghost pre_extra = extra@;
            let entry = extra.pop().unwrap();
            let ghost suffix_before = extra0.skip(rem_before);
            let ghost suffix_after = extra0.skip(rem_before - 1);
            proof {
                assert(entry == pre_extra.last());
                assert(pre_extra.last() == extra0.take(rem_before)[rem_before - 1]);
                assert(entry == extra0[rem_before - 1]);
                assert(suffix_after =~= seq![entry] + suffix_before);
                lemma_assoc_map_prepend(entry, suffix_before);
                assert(extra@ =~= extra0.take(extra@.len() as int));
            }
            let ghost mid_map = self.states_map();
            let present = states_contain(&self.states, &entry.0);
            if !present {
                proof {
                    lemma_assoc_map_contains(self.states@, entry.0@);
                }
                let ghost mid_states = self.states@;
                self.states.push(entry);
                proof {
                    assert(self.states@.drop_last() =~= mid_states);
                    assert(self.states@.last() == entry);
                    assert(self.states_map() == assoc_map(mid_states).insert(
                        entry.0@,
                        choices_views(entry.1@),
                    ));
                }
            }
            proof {
                assert(extra0.skip(extra@.len() as int) == suffix_after);
                if present {
                    assert(self.states_map() == mid_map);
                } else {
                    assert(self.states_map() == mid_map.insert(entry.0@, choices_views(entry.1@)));
                }
                assert forall|k: BoardView|
                    self.states_map().contains_key(k) <==> (#[trigger] old_map.contains_key(k)
                        || assoc_map(suffix_after).contains_key(k)) by {
                    assert(mid_map.contains_key(k) <==> (old_map.contains_key(k) || assoc_map(
                        suffix_before,
                    ).contains_key(k)));
                    assert(assoc_map(suffix_after).contains_key(k) <==> (assoc_map(
                        suffix_before,
                    ).contains_key(k) || k == entry.0@));
                    if k == entry.0@ {
                        assert(assoc_map(suffix_after).contains_key(k));
                        if present {
                            assert(mid_map.contains_key(k));
                        }
                    }
                }
                assert forall|k: BoardView| old_map.contains_key(k) implies self.states_map()[k]
                    == #[trigger] old_map[k] by {
                    assert(mid_map.contains_key(k) <==> (old_map.contains_key(k) || assoc_map(
                        suffix_before,
                    ).contains_key(k)));
                    if !present && k == entry.0@ {
                        assert(mid_map.contains_key(k));
                        assert(false);
                    }
                }
                assert forall|k: BoardView|
                    !old_map.contains_key(k) && assoc_map(suffix_after).contains_key(k) implies
                    self.states_map()[k] == #[trigger] assoc_map(suffix_after)[k] by {
                    assert(mid_map.contains_key(k) <==> (old_map.contains_key(k) || assoc_map(
                        suffix_before,
                    ).contains_key(k)));
                    assert(assoc_map(suffix_after).contains_key(k) <==> (assoc_map(
                        suffix_before,
                    ).contains_key(k) || k == entry.0@));
                    if k == entry.0@ {
                        if present {
                            assert(assoc_map(suffix_before).contains_key(k)
                                || !assoc_map(suffix_before).contains_key(k));
                            if assoc_map(suffix_before).contains_key(k) {
                                assert(assoc_map(suffix_after)[k] == assoc_map(suffix_before)[k]);
                            } else {
                                assert(false);
                            }
                        } else {
                            if assoc_map(suffix_before).contains_key(k) {
                                assert(false);
                            } else {
                                assert(assoc_map(suffix_after)[k] == choices_views(entry.1@));
                            }
                        }
                    } else {
                        assert(assoc_map(suffix_before).contains_key(k));
                        assert(assoc_map(suffix_after)[k] == assoc_map(suffix_before)[k]);
                    }
                }
            }
        }
        proof {
            assert(extra0.skip(0) =~= extra0);
        }
    }
}

/// Some helpful information gathered during tree generation, for insight
/// into memory use and geometric growth: one record per breadth layer.
#[derive(Debug, Copy, Clone, PartialEq, Eq, Structural)]
pub struct LayerStats {
    /// How many layers deep this layer was at.
    pub depth: usize,

    /// The number of boards that could be possible at this layer.
    pub boards: usize,

    /// The number of boards that were unique and were inserted.
    pub inserted: usize,
}

impl LayerStats {
    pub fn new(depth: usize, boards: usize, inserted: usize) -> (r: Self)
        ensures
            r == (LayerStats { depth, boards, inserted }),
    {
        LayerStats { depth, boards, inserted }
    }
}

/// Totals over every layer of a generation run.
#[derive(Debug, Copy, Clone, PartialEq, Eq, Structural)]
pub struct Totals {
    pub boards: usize,
    pub inserted: usize,
}

impl Totals {
    pub fn new(boards: usize, inserted: usize) -> (r: Self)
        ensures
            r == (Totals { boards, inserted }),
    {
        Totals { boards, inserted }
    }

    /// Component-wise sum, holding at the counter limit rather than
    /// wrapping; the totals are diagnostic.
    pub fn combine(self, rhs: Totals) -> (r: Totals)
        ensures
            r.boards == if self.boards + rhs.boards <= usize::MAX {
                self.boards + rhs.boards
            } else {
                usize::MAX as int
            },
            r.inserted == if self.inserted + rhs.inserted <= usize::MAX {
                self.inserted + rhs.inserted
            } else {
                usize::MAX as int
            },
    {
        let boards = if self.boards <= usize::MAX - rhs.boards {
            self.boards + rhs.boards
        } else {
            usize::MAX
        };
        let inserted = if self.inserted <= usize::MAX - rhs.inserted {
            self.inserted + rhs.inserted
        } else {
            usize::MAX
        };
        Totals { boards, inserted }
    }
}

impl Default for Totals {
    fn default() -> (r: Self)
        ensures
            r == (Totals { boards: 0usize, inserted: 0usize }),
    {
        Totals::new(0, 0)
    }
}

} // verus!
