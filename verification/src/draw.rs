use vstd::prelude::*;

use crate::cards::{card_points, is_ace, BlackjackAction, Card, CardValue};
use crate::hand::{card_split_value, hand_fits, hand_value, lemma_pair_fits, spec_hand_value};

verus! {

/// How the player's turn ended: the two hands of a split, if the hand was
/// split, and the bets that stand on the hand (or on the two split hands).
pub struct PlayerDrawResult(pub Option<(Vec<Card>, Vec<Card>)>, pub (u32, u32));

/// The result of a player's turn, with the hands as sequences of cards.
pub struct ResultView {
    pub split: Option<(Seq<Card>, Seq<Card>)>,
    pub bets: (u32, u32),
}

impl PlayerDrawResult {
    pub open spec fn model(&self) -> ResultView {
        ResultView {
            split: match self.0 {
                Some((a, b)) => Some((a@, b@)),
                None => None,
            },
            bets: self.1,
        }
    }
}

/// Where a hand stands in the player's turn: being played, or split and
/// waiting for its first or its second hand to be played.
pub enum StageView {
    Playing,
    AwaitFirst { hand2: Seq<Card>, second_ace: bool },
    AwaitSecond { hand1: Seq<Card>, bet1: u32 },
}

/// One hand of the player's turn: the hand played, whether it has been hit,
/// its bet, the balance it was played with, whether it may no longer split,
/// and where it stands.
pub struct FrameView {
    pub hand: Seq<Card>,
    pub has_hit: bool,
    pub bet: u32,
    pub balance: u32,
    pub is_split: bool,
    pub stage: StageView,
}

/// The player's turn: the hands being played, the innermost last; a hand
/// just finished and not yet handed to the hand it was split from; the final
/// hand and result once the turn is over; and the bet the turn began with.
pub struct DrawView {
    pub frames: Seq<FrameView>,
    pub pending: Option<(Seq<Card>, ResultView)>,
    pub finished: Option<(Seq<Card>, ResultView)>,
    pub bet: u32,
}

/// What the game shows while the player draws.
pub enum ShowView {
    PlayerHand(Seq<Card>),
    NewHands(Seq<Card>, Seq<Card>),
    FirstHand,
    SecondHand,
    Pause,
}

/// What the game shows while the player draws: a hand, the two hands of a
/// split, the headings of the first and second split hand, or a pause.
pub enum DrawOutput {
    PlayerHand(Vec<Card>),
    NewHands(Vec<Card>, Vec<Card>),
    FirstHand,
    SecondHand,
    Pause,
}

impl DrawOutput {
    pub open spec fn model(&self) -> ShowView {
        match self {
            DrawOutput::PlayerHand(h) => ShowView::PlayerHand(h@),
            DrawOutput::NewHands(a, b) => ShowView::NewHands(a@, b@),
            DrawOutput::FirstHand => ShowView::FirstHand,
            DrawOutput::SecondHand => ShowView::SecondHand,
            DrawOutput::Pause => ShowView::Pause,
        }
    }
}

pub open spec fn shows_model(s: Seq<DrawOutput>) -> Seq<ShowView> {
    s.map_values(|o: DrawOutput| o.model())
}

/// What the turn needs next: the player's choice among the actions offered,
/// a step that needs no input, or nothing, the turn being over.
#[derive(Debug, Clone, Copy, PartialEq, Eq, Structural)]
pub enum DrawRequest {
    Ask { can_split: bool, can_double_down: bool },
    Proceed,
    Done,
}

/// A hand may double down, or split, only before it is hit and when the
/// balance covers twice the bet.
pub open spec fn can_afford(f: FrameView) -> bool {
    !f.has_hit && 2 * f.bet <= f.balance
}

/// A split is offered when it is affordable, the first two cards have the
/// same points, and the hand may still split.
pub open spec fn offers_split(f: FrameView) -> bool {
    can_afford(f) && card_points(f.hand[0].value) == card_points(f.hand[1].value) && !f.is_split
}

/// What the turn needs next.
pub open spec fn spec_request(v: DrawView) -> DrawRequest {
    if v.finished is Some {
        DrawRequest::Done
    } else if v.pending is Some || v.frames.len() == 0 {
        DrawRequest::Proceed
    } else {
        let top = v.frames.last();
        if top.stage is Playing && spec_hand_value(top.hand).count < 21 {
            DrawRequest::Ask { can_split: offers_split(top), can_double_down: can_afford(top) }
        } else {
            DrawRequest::Proceed
        }
    }
}

/// A new hand to play: not hit, not split before.
pub open spec fn fresh_frame(hand: Seq<Card>, balance: u32, bet: u32, is_split: bool) -> FrameView {
    FrameView { hand, has_hit: false, bet, balance, is_split, stage: StageView::Playing }
}

/// The turn of a split hand `p` once its first hand is played: the second hand
/// is played next unless it holds an ace, in which case `p` is over.
pub open spec fn second_phase(
    rest: Seq<FrameView>,
    p: FrameView,
    hand1: Seq<Card>,
    bet1: u32,
    hand2: Seq<Card>,
    second_ace: bool,
    bet: u32,
) -> (DrawView, Seq<ShowView>) {
    if !second_ace {
        let waiting = FrameView { stage: StageView::AwaitSecond { hand1, bet1 }, ..p };
        (
            DrawView {
                frames: rest.push(waiting).push(
                    fresh_frame(hand2, (p.balance - bet1) as u32, p.bet, false),
                ),
                pending: None,
                finished: None,
                bet,
            },
            seq![ShowView::SecondHand, ShowView::PlayerHand(hand2)],
        )
    } else {
        (
            DrawView {
                frames: rest,
                pending: Some(
                    (p.hand, ResultView { split: Some((hand1, hand2)), bets: (bet1, p.bet) }),
                ),
                finished: None,
                bet,
            },
            Seq::empty(),
        )
    }
}

/// A step that needs no input: the finished hand is handed to the hand it was
/// split from (or ends the turn), or the hand being played, at 21 or more, is
/// over.
pub open spec fn spec_proceed(v: DrawView) -> (DrawView, Seq<ShowView>) {
    match v.pending {
        Some((h, r)) => if v.frames.len() == 0 {
            (DrawView { frames: v.frames, pending: None, finished: Some((h, r)), bet: v.bet }, Seq::empty())
        } else {
            let p = v.frames.last();
            let rest = v.frames.drop_last();
            match p.stage {
                StageView::AwaitFirst { hand2, second_ace } => second_phase(
                    rest,
                    p,
                    h,
                    r.bets.0,
                    hand2,
                    second_ace,
                    v.bet,
                ),
                StageView::AwaitSecond { hand1, bet1 } => (
                    DrawView {
                        frames: rest,
                        pending: Some(
                            (
                                p.hand,
                                ResultView { split: Some((hand1, h)), bets: (bet1, r.bets.1) },
                            ),
                        ),
                        finished: None,
                        bet: v.bet,
                    },
                    Seq::empty(),
                ),
                StageView::Playing => (DrawView { pending: None, ..v }, Seq::empty()),
            }
        },
        None => {
            let f = v.frames.last();
            (
                DrawView {
                    frames: v.frames.drop_last(),
                    pending: Some((f.hand, ResultView { split: None, bets: (f.bet, 0) })),
                    finished: None,
                    bet: v.bet,
                },
                Seq::empty(),
            )
        },
    }
}

/// An action the player may take now.
pub open spec fn action_allowed(v: DrawView, action: BlackjackAction) -> bool {
    &&& spec_request(v) is Ask
    &&& action is Split ==> offers_split(v.frames.last())
    &&& action is DoubleDown ==> can_afford(v.frames.last())
}

/// The deck holds the cards the action draws, and a hit leaves a hand whose
/// total still fits.
pub open spec fn deck_suffices(v: DrawView, deck: Seq<Card>, action: BlackjackAction) -> bool {
    match action {
        BlackjackAction::Stand => true,
        BlackjackAction::Hit | BlackjackAction::DoubleDown => deck.len() >= 1 && hand_fits(
            v.frames.last().hand.push(deck.last()),
        ),
        BlackjackAction::Split => deck.len() >= 2,
    }
}

/// The player's action on the hand being played: stand; hit (draw a card);
/// double down (double the bet, draw one card, and stop); or split the first
/// two cards into two hands that each draw a card and are played in turn,
/// unless a hand starts with an ace.
pub open spec fn spec_take_action(v: DrawView, deck: Seq<Card>, action: BlackjackAction) -> (
    DrawView,
    Seq<Card>,
    Seq<ShowView>,
) {
    let f = v.frames.last();
    let rest = v.frames.drop_last();
    match action {
        BlackjackAction::Stand => (
            DrawView {
                frames: rest,
                pending: Some((f.hand, ResultView { split: None, bets: (f.bet, 0) })),
                finished: None,
                bet: v.bet,
            },
            deck,
            seq![ShowView::PlayerHand(f.hand), ShowView::Pause],
        ),
        BlackjackAction::Hit => {
            let hand = f.hand.push(deck.last());
            (
                DrawView {
                    frames: rest.push(FrameView { hand, has_hit: true, ..f }),
                    pending: None,
                    finished: None,
                    bet: v.bet,
                },
                deck.drop_last(),
                seq![ShowView::PlayerHand(hand), ShowView::Pause],
            )
        },
        BlackjackAction::DoubleDown => {
            let hand = f.hand.push(deck.last());
            (
                DrawView {
                    frames: rest,
                    pending: Some(
                        (hand, ResultView { split: None, bets: ((2 * f.bet) as u32, 0) }),
                    ),
                    finished: None,
                    bet: v.bet,
                },
                deck.drop_last(),
                seq![ShowView::PlayerHand(hand), ShowView::Pause],
            )
        },
        BlackjackAction::Split => {
            let n = deck.len();
            let hand1 = seq![f.hand[0], deck[n - 1]];
            let hand2 = seq![f.hand[1], deck[n - 2]];
            let first_ace = is_ace(f.hand[0].value);
            let second_ace = is_ace(f.hand[1].value);
            let shown = seq![ShowView::NewHands(hand1, hand2)];
            if !first_ace {
                (
                    DrawView {
                        frames: rest.push(
                            FrameView { stage: StageView::AwaitFirst { hand2, second_ace }, ..f },
                        ).push(fresh_frame(hand1, f.balance, f.bet, false)),
                        pending: None,
                        finished: None,
                        bet: v.bet,
                    },
                    deck.take(n - 2),
                    shown + seq![ShowView::FirstHand, ShowView::PlayerHand(hand1)],
                )
            } else {
                let (w, s) = second_phase(rest, f, hand1, f.bet, hand2, second_ace, v.bet);
                (w, deck.take(n - 2), shown + s)
            }
        },
    }
}

/// The bets a finished hand stands on: the first is the bet or its double, the
/// second none, the bet or its double.
pub open spec fn bets_ok(bets: (u32, u32), bet: u32) -> bool {
    &&& (bets.0 == bet || bets.0 == 2 * bet)
    &&& (bets.1 == 0 || bets.1 == bet || bets.1 == 2 * bet)
}

/// A hand waiting for a split hand to be played: it could afford the split.
pub open spec fn waiting_ok(f: FrameView, bet: u32) -> bool {
    &&& !(f.stage is Playing)
    &&& 2 * bet <= f.balance
    &&& (f.stage matches StageView::AwaitSecond { bet1, .. } ==> (bet1 == bet || bet1 == 2 * bet))
    &&& (f.stage matches StageView::AwaitFirst { hand2, .. } ==> hand2.len() == 2)
}

/// The hand being played: its total fits, and before it is hit, the doubled
/// bet fits and its first two cards exist when a split could be afforded.
pub open spec fn playing_ok(f: FrameView) -> bool {
    &&& f.stage is Playing
    &&& hand_fits(f.hand)
    &&& (!f.has_hit && spec_hand_value(f.hand).count < 21) ==> (2 * f.bet <= u32::MAX && (
    f.hand.len() >= 2 || 2 * f.bet > f.balance))
}

/// The invariant of the player's turn.
pub open spec fn draw_wf(v: DrawView) -> bool {
    &&& v.finished is Some ==> v.frames.len() == 0 && v.pending is None
    &&& forall|i: int| 0 <= i < v.frames.len() ==> (#[trigger] v.frames[i]).bet == v.bet
    &&& forall|i: int| 0 <= i < v.frames.len() - 1 ==> waiting_ok(#[trigger] v.frames[i], v.bet)
    &&& v.frames.len() > 0 ==> if v.pending is Some {
        waiting_ok(v.frames.last(), v.bet)
    } else {
        playing_ok(v.frames.last())
    }
    &&& v.pending matches Some((h, r)) ==> bets_ok(r.bets, v.bet)
    &&& v.finished matches Some((h, r)) ==> bets_ok(r.bets, v.bet)
    &&& (v.finished is None && v.pending is None) ==> v.frames.len() > 0
}

/// How much work is left before the turn asks again or ends.
pub open spec fn stage_weight(s: StageView) -> nat {
    match s {
        StageView::Playing => 2,
        StageView::AwaitFirst { .. } => 3,
        StageView::AwaitSecond { .. } => 1,
    }
}

pub open spec fn frames_weight(frames: Seq<FrameView>) -> nat
    decreases frames.len(),
{
    if frames.len() == 0 {
        0
    } else {
        frames_weight(frames.drop_last()) + stage_weight(frames.last().stage)
    }
}

pub open spec fn draw_measure(v: DrawView) -> nat {
    frames_weight(v.frames) + if v.pending is Some { 1nat } else { 0nat }
}

/// A hand of the player's turn.
struct Frame {
    hand: Vec<Card>,
    has_hit: bool,
    bet: u32,
    balance: u32,
    is_split: bool,
    stage: Stage,
}

enum Stage {
    Playing,
    AwaitFirst { hand2: Vec<Card>, second_ace: bool },
    AwaitSecond { hand1: Vec<Card>, bet1: u32 },
}

impl Frame {
    spec fn model(&self) -> FrameView {
        FrameView {
            hand: self.hand@,
            has_hit: self.has_hit,
            bet: self.bet,
            balance: self.balance,
            is_split: self.is_split,
            stage: match self.stage {
                Stage::Playing => StageView::Playing,
                Stage::AwaitFirst { hand2, second_ace } => StageView::AwaitFirst {
                    hand2: hand2@,
                    second_ace,
                },
                Stage::AwaitSecond { hand1, bet1 } => StageView::AwaitSecond {
                    hand1: hand1@,
                    bet1,
                },
            },
        }
    }
}

spec fn frames_model(s: Seq<Frame>) -> Seq<FrameView> {
    s.map_values(|f: Frame| f.model())
}

spec fn result_opt_model(o: Option<(Vec<Card>, PlayerDrawResult)>) -> Option<(Seq<Card>, ResultView)> {
    match o {
        Some((h, r)) => Some((h@, r.model())),
        None => None,
    }
}

/// The player's turn at drawing cards, as a state machine: the game asks it
/// what it needs, gives it the player's choices, shows what it returns, and
/// takes the final hand and result once it is done.
pub struct PlayerDraw {
    frames: Vec<Frame>,
    pending: Option<(Vec<Card>, PlayerDrawResult)>,
    finished: Option<(Vec<Card>, PlayerDrawResult)>,
    bet: u32,
}

impl View for PlayerDraw {
    type V = DrawView;

    closed spec fn view(&self) -> DrawView {
        DrawView {
            frames: frames_model(self.frames@),
            pending: result_opt_model(self.pending),
            finished: result_opt_model(self.finished),
            bet: self.bet,
        }
    }
}

proof fn lemma_frames_push(s: Seq<Frame>, f: Frame)
    ensures
        frames_model(s.push(f)) == frames_model(s).push(f.model()),
{
    assert(frames_model(s.push(f)) =~= frames_model(s).push(f.model()));
}

proof fn lemma_frames_pop(s: Seq<Frame>)
    requires
        s.len() > 0,
    ensures
        frames_model(s.drop_last()) == frames_model(s).drop_last(),
        frames_model(s).last() == s.last().model(),
{
    assert(frames_model(s.drop_last()) =~= frames_model(s).drop_last());
}

} // verus!

verus! {

impl PlayerDraw {
    pub open spec fn wf(&self) -> bool {
        draw_wf(self@)
    }

    /// Starts the player's turn with a hand, the balance, the bet, and whether
    /// the hand may no longer be split.
    pub fn new(hand: Vec<Card>, balance: u32, bet: u32, is_split: bool) -> (draw: PlayerDraw)
        requires
            playing_ok(fresh_frame(hand@, balance, bet, is_split)),
        ensures
            draw.wf(),
            draw@ == (DrawView {
                frames: seq![fresh_frame(hand@, balance, bet, is_split)],
                pending: None,
                finished: None,
                bet,
            }),
    {
        let frame = Frame { hand, has_hit: false, bet, balance, is_split, stage: Stage::Playing };
        let mut frames: Vec<Frame> = Vec::new();
        frames.push(frame);
        let draw = PlayerDraw { frames, pending: None, finished: None, bet };
        proof {
            assert(frames_model(draw.frames@) =~= seq![fresh_frame(hand@, balance, bet, is_split)]);
        }
        draw
    }

    /// What the turn needs next; when the player must choose, which of split
    /// and double down are offered.
    pub fn request(&self) -> (r: DrawRequest)
        requires
            self.wf(),
        ensures
            r == spec_request(self@),
    {
        if self.finished.is_some() {
            return DrawRequest::Done;
        }
        if self.pending.is_some() {
            return DrawRequest::Proceed;
        }
        let n = self.frames.len();
        if n == 0 {
            return DrawRequest::Proceed;
        }
        let top = &self.frames[n - 1];
        proof {
            lemma_frames_pop(self.frames@);
        }
        match top.stage {
            Stage::Playing => {},
            _ => {
                return DrawRequest::Proceed;
            },
        }
        let v = hand_value(top.hand.as_slice());
        if v.count < 21 {
            let can_afford = !top.has_hit && top.bet * 2 <= top.balance;
            let similar = can_afford && card_split_value(&top.hand[0].value) == card_split_value(
                &top.hand[1].value,
            );
            DrawRequest::Ask { can_split: similar && !top.is_split, can_double_down: can_afford }
        } else {
            DrawRequest::Proceed
        }
    }

    /// The player's final hand and the result, once the turn is over. The
    /// bets stand as the bet or its double, and the second as nothing, the
    /// bet or its double.
    pub fn finish(self) -> (out: (Vec<Card>, PlayerDrawResult))
        requires
            self.wf(),
            spec_request(self@) is Done,
        ensures
            self@.finished == Some((out.0@, out.1.model())),
            bets_ok(out.1.1, self@.bet),
    {
        match self.finished {
            Some(f) => f,
            None => {
                proof {
                    assert(false);
                }
                (Vec::new(), PlayerDrawResult(None, (0, 0)))
            },
        }
    }
}

} // verus!

verus! {

impl PlayerDraw {
    /// Takes the step of a split hand `p` once its first hand `hand1` is played
    /// with the bet `bet1`.
    fn play_second(
        &mut self,
        p: Frame,
        hand1: Vec<Card>,
        bet1: u32,
        hand2: Vec<Card>,
        second_ace: bool,
    ) -> (shows: Vec<DrawOutput>)
        requires
            old(self).pending is None,
            old(self).finished is None,
            p.bet == old(self).bet,
            2 * p.bet <= p.balance,
            bet1 == old(self).bet || bet1 == 2 * old(self).bet,
            hand2@.len() == 2,
            forall|i: int| 0 <= i < old(self)@.frames.len() ==> (#[trigger] old(self)@.frames[i]).bet == old(self).bet,
            forall|i: int| 0 <= i < old(self)@.frames.len() ==> waiting_ok(#[trigger] old(self)@.frames[i], old(self).bet),
        ensures
            final(self).wf(),
            (final(self)@, shows_model(shows@)) == second_phase(
                old(self)@.frames,
                p.model(),
                hand1@,
                bet1,
                hand2@,
                second_ace,
                old(self)@.bet,
            ),
    {
        let mut shows: Vec<DrawOutput> = Vec::new();
        if !second_ace {
            let balance = p.balance - bet1;
            let bet = p.bet;
            let waiting = Frame {
                hand: p.hand,
                has_hit: p.has_hit,
                bet: p.bet,
                balance: p.balance,
                is_split: p.is_split,
                stage: Stage::AwaitSecond { hand1, bet1 },
            };
            let ghost before = self.frames@;
            self.frames.push(waiting);
            let shown = clone_hand(&hand2);
            let child = Frame {
                hand: hand2,
                has_hit: false,
                bet,
                balance,
                is_split: false,
                stage: Stage::Playing,
            };
            let ghost middle = self.frames@;
            self.frames.push(child);
            shows.push(DrawOutput::SecondHand);
            shows.push(DrawOutput::PlayerHand(shown));
            proof {
                lemma_frames_push(before, waiting);
                lemma_frames_push(middle, child);
                lemma_pair_fits(child.hand@);
                assert(shows_model(shows@) =~= seq![ShowView::SecondHand, ShowView::PlayerHand(hand2@)]);
                let v = self@;
                assert forall|i: int| 0 <= i < v.frames.len() - 1 implies waiting_ok(
                    #[trigger] v.frames[i],
                    v.bet,
                ) by {
                    if i < before.len() {
                        assert(v.frames[i] == old(self)@.frames[i]);
                    }
                }
                assert forall|i: int| 0 <= i < v.frames.len() implies (#[trigger] v.frames[i]).bet
                    == v.bet by {
                    if i < before.len() {
                        assert(v.frames[i] == old(self)@.frames[i]);
                    }
                }
                assert(playing_ok(v.frames.last()));
                assert(draw_wf(v));
            }
        } else {
            let result = PlayerDrawResult(Some((hand1, hand2)), (bet1, p.bet));
            self.pending = Some((p.hand, result));
            proof {
                assert(bets_ok((bet1, p.bet), self.bet));
                assert(self@.frames == old(self)@.frames);
                if self@.frames.len() > 0 {
                    assert(waiting_ok(self@.frames[self@.frames.len() - 1], self.bet));
                }
                assert(draw_wf(self@));
            }
        }
        shows
    }
}

fn clone_hand(hand: &Vec<Card>) -> (c: Vec<Card>)
    ensures
        c@ == hand@,
{
    let mut c: Vec<Card> = Vec::new();
    let mut i: usize = 0;
    while i < hand.len()
        invariant
            i <= hand@.len(),
            c@ == hand@.take(i as int),
        decreases hand@.len() - i,
    {
        c.push(hand[i]);
        proof {
            assert(hand@.take(i + 1) =~= hand@.take(i as int).push(hand@[i as int]));
        }
        i = i + 1;
    }
    proof {
        assert(hand@.take(hand@.len() as int) =~= hand@);
    }
    c
}

} // verus!

verus! {

impl PlayerDraw {
    /// Takes a step that needs no input from the player.
    pub fn proceed(&mut self) -> (shows: Vec<DrawOutput>)
        requires
            old(self).wf(),
            spec_request(old(self)@) is Proceed,
        ensures
            final(self).wf(),
            (final(self)@, shows_model(shows@)) == spec_proceed(old(self)@),
    {
        let ghost v = self@;
        let pending = self.pending.take();
        match pending {
            Some((h, r)) => {
                if self.frames.len() == 0 {
                    self.finished = Some((h, r));
                    let shows: Vec<DrawOutput> = Vec::new();
                    proof {
                        assert(shows_model(shows@) =~= Seq::<ShowView>::empty());
                    }
                    return shows;
                }
                let ghost all = self.frames@;
                let p = self.frames.pop().unwrap();
                proof {
                    lemma_frames_pop(all);
                    assert(self.frames@ == all.drop_last());
                    assert(waiting_ok(v.frames[v.frames.len() - 1], v.bet));
                    assert forall|i: int| 0 <= i < self@.frames.len() implies waiting_ok(
                        #[trigger] self@.frames[i],
                        self.bet,
                    ) && self@.frames[i].bet == self.bet by {
                        assert(self@.frames[i] == v.frames[i]);
                    }
                }
                let Frame { hand, has_hit, bet, balance, is_split, stage } = p;
                match stage {
                    Stage::AwaitFirst { hand2, second_ace } => {
                        let q = Frame { hand, has_hit, bet, balance, is_split, stage: Stage::Playing };
                        self.play_second(q, h, r.1.0, hand2, second_ace)
                    },
                    Stage::AwaitSecond { hand1, bet1 } => {
                        self.pending = Some((hand, PlayerDrawResult(Some((hand1, h)), (bet1, r.1.1))));
                        let shows: Vec<DrawOutput> = Vec::new();
                        proof {
                            assert(shows_model(shows@) =~= Seq::<ShowView>::empty());
                            if self@.frames.len() > 0 {
                                assert(waiting_ok(self@.frames[self@.frames.len() - 1], self.bet));
                            }
                        }
                        shows
                    },
                    Stage::Playing => {
                        proof {
                            assert(false);
                        }
                        Vec::new()
                    },
                }
            },
            None => {
                let ghost all = self.frames@;
                let f = self.frames.pop().unwrap();
                proof {
                    lemma_frames_pop(all);
                }
                self.pending = Some((f.hand, PlayerDrawResult(None, (f.bet, 0))));
                let shows: Vec<DrawOutput> = Vec::new();
                proof {
                    assert(shows_model(shows@) =~= Seq::<ShowView>::empty());
                    assert(f.bet == self.bet);
                    if self@.frames.len() > 0 {
                        assert(waiting_ok(self@.frames[self@.frames.len() - 1], self.bet));
                    }
                    assert forall|i: int| 0 <= i < self@.frames.len() implies (#[trigger] self@.frames[i]).bet == self.bet by {
                        assert(self@.frames[i] == v.frames[i]);
                    }
                }
                shows
            },
        }
    }
}

} // verus!

verus! {

fn two_cards(a: Card, b: Card) -> (h: Vec<Card>)
    ensures
        h@ == seq![a, b],
{
    let mut h: Vec<Card> = Vec::new();
    h.push(a);
    h.push(b);
    proof {
        assert(h@ =~= seq![a, b]);
    }
    h
}

impl PlayerDraw {
    /// Takes the player's action on the hand being played, drawing the cards
    /// it needs from the top (the end) of the deck.
    pub fn take_action(&mut self, deck: &mut Vec<Card>, action: BlackjackAction) -> (shows: Vec<
        DrawOutput,
    >)
        requires
            old(self).wf(),
            action_allowed(old(self)@, action),
            deck_suffices(old(self)@, old(deck)@, action),
        ensures
            final(self).wf(),
            (final(self)@, final(deck)@, shows_model(shows@)) == spec_take_action(
                old(self)@,
                old(deck)@,
                action,
            ),
    {
        let ghost v = self@;
        let ghost all = self.frames@;
        let f = self.frames.pop().unwrap();
        proof {
            lemma_frames_pop(all);
            assert forall|i: int| 0 <= i < self@.frames.len() implies waiting_ok(
                #[trigger] self@.frames[i],
                self.bet,
            ) && self@.frames[i].bet == self.bet by {
                assert(self@.frames[i] == v.frames[i]);
            }
        }
        let mut shows: Vec<DrawOutput> = Vec::new();
        match action {
            BlackjackAction::Stand => {
                shows.push(DrawOutput::PlayerHand(clone_hand(&f.hand)));
                shows.push(DrawOutput::Pause);
                self.pending = Some((f.hand, PlayerDrawResult(None, (f.bet, 0))));
                proof {
                    assert(shows_model(shows@) =~= seq![
                        ShowView::PlayerHand(v.frames.last().hand),
                        ShowView::Pause,
                    ]);
                    if self@.frames.len() > 0 {
                        assert(waiting_ok(self@.frames[self@.frames.len() - 1], self.bet));
                    }
                }
            },
            BlackjackAction::Hit => {
                let card = deck.pop().unwrap();
                let Frame { hand, has_hit, bet, balance, is_split, stage } = f;
                let mut hand = hand;
                hand.push(card);
                shows.push(DrawOutput::PlayerHand(clone_hand(&hand)));
                shows.push(DrawOutput::Pause);
                let g = Frame { hand, has_hit: true, bet, balance, is_split, stage };
                let ghost rest = self.frames@;
                self.frames.push(g);
                proof {
                    lemma_frames_push(rest, g);
                    assert(shows_model(shows@) =~= seq![
                        ShowView::PlayerHand(g.hand@),
                        ShowView::Pause,
                    ]);
                    let w = self@;
                    assert forall|i: int| 0 <= i < w.frames.len() - 1 implies waiting_ok(
                        #[trigger] w.frames[i],
                        w.bet,
                    ) by {
                        assert(w.frames[i] == v.frames[i]);
                    }
                    assert forall|i: int| 0 <= i < w.frames.len() implies (#[trigger] w.frames[i]).bet
                        == w.bet by {
                        if i < w.frames.len() - 1 {
                            assert(w.frames[i] == v.frames[i]);
                        }
                    }
                }
            },
            BlackjackAction::DoubleDown => {
                let card = deck.pop().unwrap();
                let Frame { hand, has_hit, bet, balance, is_split, stage } = f;
                let mut hand = hand;
                hand.push(card);
                shows.push(DrawOutput::PlayerHand(clone_hand(&hand)));
                shows.push(DrawOutput::Pause);
                self.pending = Some((hand, PlayerDrawResult(None, (bet * 2, 0))));
                proof {
                    assert(shows_model(shows@) =~= seq![
                        ShowView::PlayerHand(v.frames.last().hand.push(card)),
                        ShowView::Pause,
                    ]);
                    if self@.frames.len() > 0 {
                        assert(waiting_ok(self@.frames[self@.frames.len() - 1], self.bet));
                    }
                }
            },
            BlackjackAction::Split => {
                let first = f.hand[0];
                let second = f.hand[1];
                let c1 = deck.pop().unwrap();
                let c2 = deck.pop().unwrap();
                let hand1 = two_cards(first, c1);
                let hand2 = two_cards(second, c2);
                shows.push(DrawOutput::NewHands(clone_hand(&hand1), clone_hand(&hand2)));
                let first_ace = match first.value {
                    CardValue::Ace => true,
                    _ => false,
                };
                let second_ace = match second.value {
                    CardValue::Ace => true,
                    _ => false,
                };
                proof {
                    assert(old(deck)@.take(old(deck)@.len() - 2) =~= deck@);
                }
                if !first_ace {
                    let shown = clone_hand(&hand1);
                    let Frame { hand, has_hit, bet, balance, is_split, stage } = f;
                    let waiting = Frame {
                        hand,
                        has_hit,
                        bet,
                        balance,
                        is_split,
                        stage: Stage::AwaitFirst { hand2, second_ace },
                    };
                    let child = Frame {
                        hand: hand1,
                        has_hit: false,
                        bet,
                        balance,
                        is_split: false,
                        stage: Stage::Playing,
                    };
                    let ghost rest = self.frames@;
                    self.frames.push(waiting);
                    let ghost middle = self.frames@;
                    self.frames.push(child);
                    shows.push(DrawOutput::FirstHand);
                    shows.push(DrawOutput::PlayerHand(shown));
                    proof {
                        lemma_frames_push(rest, waiting);
                        lemma_frames_push(middle, child);
                        lemma_pair_fits(child.hand@);
                        assert(shows_model(shows@) =~= seq![
                            ShowView::NewHands(hand1@, hand2@),
                            ShowView::FirstHand,
                            ShowView::PlayerHand(hand1@),
                        ]);
                        let w = self@;
                        assert forall|i: int| 0 <= i < w.frames.len() - 1 implies waiting_ok(
                            #[trigger] w.frames[i],
                            w.bet,
                        ) by {
                            if i < rest.len() {
                                assert(w.frames[i] == v.frames[i]);
                            }
                        }
                        assert forall|i: int| 0 <= i < w.frames.len() implies (#[trigger] w.frames[
                            i]).bet == w.bet by {
                            if i < rest.len() {
                                assert(w.frames[i] == v.frames[i]);
                            }
                        }
                    }
                } else {
                    let ghost before_shows = shows@;
                    let fb = f.bet;
                    let more = self.play_second(f, hand1, fb, hand2, second_ace);
                    let mut more = more;
                    shows.append(&mut more);
                    proof {
                        assert(shows_model(shows@) =~= shows_model(before_shows) + shows_model(
                            shows@.skip(1),
                        ));
                    }
                }
            },
        }
        shows
    }
}

} // verus!

verus! {

impl PlayerDraw {
    /// Tells whether the player may take this action now and the deck holds
    /// the cards it draws, a hit leaving a hand whose total fits.
    pub fn can_take_action(&self, deck: &Vec<Card>, action: BlackjackAction) -> (b: bool)
        requires
            self.wf(),
        ensures
            b == (action_allowed(self@, action) && deck_suffices(self@, deck@, action)),
    {
        let (can_split, can_double_down) = match self.request() {
            DrawRequest::Ask { can_split, can_double_down } => (can_split, can_double_down),
            _ => {
                return false;
            },
        };
        proof {
            lemma_frames_pop(self.frames@);
        }
        match action {
            BlackjackAction::Stand => true,
            BlackjackAction::Split => can_split && deck.len() >= 2,
            BlackjackAction::Hit | BlackjackAction::DoubleDown => {
                if action == BlackjackAction::DoubleDown && !can_double_down {
                    return false;
                }
                if deck.len() == 0 {
                    return false;
                }
                let top = &self.frames[self.frames.len() - 1];
                let mut hand = clone_hand(&top.hand);
                hand.push(deck[deck.len() - 1]);
                crate::hand::hand_total_fits(hand.as_slice())
            },
        }
    }
}

proof fn lemma_frames_weight_push(s: Seq<FrameView>, f: FrameView)
    ensures
        frames_weight(s.push(f)) == frames_weight(s) + stage_weight(f.stage),
{
    assert(s.push(f).drop_last() =~= s);
}

/// The steps that need no input always come to an end: each one lowers a
/// measure of the work left, so the turn soon asks the player or ends.
pub proof fn lemma_proceed_decreases(v: DrawView)
    requires
        draw_wf(v),
        spec_request(v) is Proceed,
    ensures
        draw_measure(spec_proceed(v).0) < draw_measure(v),
{
    if v.frames.len() > 0 {
        let rest = v.frames.drop_last();
        let p = v.frames.last();
        lemma_frames_weight_push(rest, p);
        assert(rest.push(p) =~= v.frames);
        match p.stage {
            StageView::AwaitFirst { hand2, second_ace } => {
                if v.pending is Some && !second_ace {
                    let r = v.pending.unwrap().1;
                    let waiting = FrameView {
                        stage: StageView::AwaitSecond { hand1: v.pending.unwrap().0, bet1: r.bets.0 },
                        ..p
                    };
                    lemma_frames_weight_push(rest, waiting);
                    lemma_frames_weight_push(
                        rest.push(waiting),
                        fresh_frame(hand2, (p.balance - r.bets.0) as u32, p.bet, false),
                    );
                }
            },
            _ => {},
        }
    }
}

/// An action draws its cards from the top of the deck and nothing else: none
/// for a stand, one for a hit or a double down, two for a split.
pub proof fn lemma_take_action_draws_from_top(v: DrawView, deck: Seq<Card>, action: BlackjackAction)
    requires
        draw_wf(v),
        action_allowed(v, action),
        deck_suffices(v, deck, action),
    ensures
        ({
            let drawn: int = match action {
                BlackjackAction::Stand => 0,
                BlackjackAction::Hit | BlackjackAction::DoubleDown => 1,
                BlackjackAction::Split => 2,
            };
            spec_take_action(v, deck, action).1 == deck.take(deck.len() - drawn)
        }),
{
    match action {
        BlackjackAction::Stand => {
            assert(deck.take(deck.len() as int) =~= deck);
        },
        BlackjackAction::Hit | BlackjackAction::DoubleDown => {
            assert(deck.drop_last() =~= deck.take(deck.len() - 1));
        },
        BlackjackAction::Split => {},
    }
}

} // verus!

verus! {

proof fn lemma_second_phase_wf(
    rest: Seq<FrameView>,
    p: FrameView,
    hand1: Seq<Card>,
    bet1: u32,
    hand2: Seq<Card>,
    second_ace: bool,
    bet: u32,
)
    requires
        forall|i: int| 0 <= i < rest.len() ==> (#[trigger] rest[i]).bet == bet && waiting_ok(rest[i], bet),
        p.bet == bet,
        2 * bet <= p.balance,
        bet1 == bet || bet1 == 2 * bet,
        hand2.len() == 2,
    ensures
        draw_wf(second_phase(rest, p, hand1, bet1, hand2, second_ace, bet).0),
{
    let w = second_phase(rest, p, hand1, bet1, hand2, second_ace, bet).0;
    if !second_ace {
        lemma_pair_fits(hand2);
        assert forall|i: int| 0 <= i < w.frames.len() implies (#[trigger] w.frames[i]).bet == bet by {
            if i < rest.len() {
                assert(w.frames[i] == rest[i]);
            }
        }
        assert forall|i: int| 0 <= i < w.frames.len() - 1 implies waiting_ok(#[trigger] w.frames[i], bet) by {
            if i < rest.len() {
                assert(w.frames[i] == rest[i]);
            }
        }
    } else {
        if rest.len() > 0 {
            assert(waiting_ok(rest[rest.len() - 1], bet));
        }
    }
}

/// Every step that needs no input keeps the turn's invariant.
pub proof fn lemma_proceed_keeps_wf(v: DrawView)
    requires
        draw_wf(v),
        spec_request(v) is Proceed,
    ensures
        draw_wf(spec_proceed(v).0),
{
    let w = spec_proceed(v).0;
    if v.frames.len() > 0 {
        let rest = v.frames.drop_last();
        let p = v.frames.last();
        assert forall|i: int| 0 <= i < rest.len() implies (#[trigger] rest[i]).bet == v.bet
            && waiting_ok(rest[i], v.bet) by {
            assert(rest[i] == v.frames[i]);
        }
        match v.pending {
            Some((h, r)) => match p.stage {
                StageView::AwaitFirst { hand2, second_ace } => {
                    lemma_second_phase_wf(rest, p, h, r.bets.0, hand2, second_ace, v.bet);
                },
                _ => {
                    if rest.len() > 0 {
                        assert(waiting_ok(rest[rest.len() - 1], v.bet));
                    }
                },
            },
            None => {
                if rest.len() > 0 {
                    assert(waiting_ok(rest[rest.len() - 1], v.bet));
                }
            },
        }
    }
}

/// Every action the player may take keeps the turn's invariant.
pub proof fn lemma_take_action_keeps_wf(v: DrawView, deck: Seq<Card>, action: BlackjackAction)
    requires
        draw_wf(v),
        action_allowed(v, action),
        deck_suffices(v, deck, action),
    ensures
        draw_wf(spec_take_action(v, deck, action).0),
{
    let w = spec_take_action(v, deck, action).0;
    let rest = v.frames.drop_last();
    let f = v.frames.last();
    assert forall|i: int| 0 <= i < rest.len() implies (#[trigger] rest[i]).bet == v.bet && waiting_ok(
        rest[i],
        v.bet,
    ) by {
        assert(rest[i] == v.frames[i]);
    }
    if rest.len() > 0 {
        assert(waiting_ok(rest[rest.len() - 1], v.bet));
    }
    match action {
        BlackjackAction::Hit => {
            assert forall|i: int| 0 <= i < w.frames.len() implies (#[trigger] w.frames[i]).bet
                == v.bet by {
                if i < rest.len() {
                    assert(w.frames[i] == rest[i]);
                }
            }
            assert forall|i: int| 0 <= i < w.frames.len() - 1 implies waiting_ok(
                #[trigger] w.frames[i],
                v.bet,
            ) by {
                assert(w.frames[i] == rest[i]);
            }
        },
        BlackjackAction::Split => {
            let n = deck.len();
            let hand1 = seq![f.hand[0], deck[n - 1]];
            let hand2 = seq![f.hand[1], deck[n - 2]];
            if !is_ace(f.hand[0].value) {
                lemma_pair_fits(hand1);
                assert forall|i: int| 0 <= i < w.frames.len() implies (#[trigger] w.frames[i]).bet
                    == v.bet by {
                    if i < rest.len() {
                        assert(w.frames[i] == rest[i]);
                    }
                }
                assert forall|i: int| 0 <= i < w.frames.len() - 1 implies waiting_ok(
                    #[trigger] w.frames[i],
                    v.bet,
                ) by {
                    if i < rest.len() {
                        assert(w.frames[i] == rest[i]);
                    }
                }
            } else {
                lemma_second_phase_wf(rest, f, hand1, f.bet, hand2, is_ace(f.hand[1].value), v.bet);
            }
        },
        _ => {},
    }
}

} // verus!

verus! {

/// How a turn began: the hand, the deck, the balance, the bet, and whether the
/// hand may no longer be split.
pub struct TurnStart {
    pub hand: Seq<Card>,
    pub deck: Seq<Card>,
    pub balance: u32,
    pub bet: u32,
    pub is_split: bool,
}

/// The turn as `PlayerDraw::new` starts it.
pub open spec fn start_view(s: TurnStart) -> DrawView {
    DrawView {
        frames: seq![fresh_frame(s.hand, s.balance, s.bet, s.is_split)],
        pending: None,
        finished: None,
        bet: s.bet,
    }
}

/// One step of a turn, with the deck before and after it: a step that needs
/// no input, or an action the player may take with a deck that suffices.
pub open spec fn draw_step(v1: DrawView, d1: Seq<Card>, v2: DrawView, d2: Seq<Card>) -> bool {
    ||| (spec_request(v1) is Proceed && spec_proceed(v1).0 == v2 && d2 == d1)
    ||| exists|a: BlackjackAction|
        #[trigger] action_allowed(v1, a) && deck_suffices(v1, d1, a) && spec_take_action(v1, d1, a).0
            == v2 && spec_take_action(v1, d1, a).1 == d2
}

/// A run of a turn: the states and decks from the start, each reached from
/// the one before by a step.
pub open spec fn is_turn(s: TurnStart, vs: Seq<DrawView>, ds: Seq<Seq<Card>>) -> bool {
    &&& vs.len() == ds.len()
    &&& vs.len() >= 1
    &&& vs[0] == start_view(s)
    &&& ds[0] == s.deck
    &&& playing_ok(fresh_frame(s.hand, s.balance, s.bet, s.is_split))
    &&& forall|i: int| 0 <= i < vs.len() - 1 ==> #[trigger] draw_step(vs[i], ds[i], vs[i + 1], ds[i + 1])
}

/// The hand could be split at the start of the turn: it may split, the
/// balance covers twice the bet, it counts under 21, and its first two cards
/// have the same points.
pub open spec fn split_ok(s: TurnStart) -> bool {
    &&& !s.is_split
    &&& 2 * s.bet <= s.balance
    &&& s.hand.len() >= 2
    &&& spec_hand_value(s.hand).count < 21
    &&& card_points(s.hand[0].value) == card_points(s.hand[1].value)
}

/// What a turn that ended on its first hand gives: without a split, the hand
/// is the starting hand plus the cards drawn, the second bet is none, and the
/// bet stands or was doubled on an affordable double down that drew one card
/// onto a hand under 21; with a split, the hand is the starting hand and it
/// could be split.
pub open spec fn top_result_ok(s: TurnStart, h: Seq<Card>, r: ResultView, drawn: Seq<Card>) -> bool {
    if r.split is None {
        &&& h == s.hand + drawn
        &&& r.bets.1 == 0
        &&& (r.bets.0 == s.bet || (r.bets.0 == 2 * s.bet && 2 * s.bet <= s.balance
            && spec_hand_value(s.hand).count < 21 && drawn.len() == 1))
    } else {
        h == s.hand && split_ok(s)
    }
}

pub open spec fn frame0_ok(s: TurnStart, f0: FrameView, drawn: Seq<Card>) -> bool {
    &&& f0.bet == s.bet
    &&& f0.balance == s.balance
    &&& f0.is_split == s.is_split
    &&& if f0.stage is Playing {
        f0.hand == s.hand + drawn && (!f0.has_hit ==> drawn.len() == 0)
    } else {
        f0.hand == s.hand && split_ok(s)
    }
}

/// What holds at every point of a turn.
pub open spec fn turn_inv(s: TurnStart, v: DrawView, d: Seq<Card>) -> bool {
    let drawn = s.deck.skip(d.len() as int).reverse();
    &&& draw_wf(v)
    &&& v.bet == s.bet
    &&& d.len() <= s.deck.len()
    &&& d == s.deck.take(d.len() as int)
    &&& v.frames.len() > 0 ==> frame0_ok(s, v.frames[0], drawn)
    &&& v.frames.len() == 0 ==> (v.pending matches Some((h, r)) ==> top_result_ok(s, h, r, drawn))
    &&& v.frames.len() == 0 ==> (v.finished matches Some((h, r)) ==> top_result_ok(s, h, r, drawn))
}

} // verus!

verus! {

proof fn lemma_prefix_drop(all: Seq<Card>, d: Seq<Card>, m: int)
    requires
        d.len() <= all.len(),
        d == all.take(d.len() as int),
        0 <= m <= d.len(),
    ensures
        d.take(d.len() - m) == all.take(d.len() - m),
        m == 1 ==> all.skip(d.len() - 1).reverse() == all.skip(d.len() as int).reverse().push(
            d.last(),
        ),
        m == 1 ==> d.drop_last() == d.take(d.len() - 1),
{
    assert(d.take(d.len() - m) =~= all.take(d.len() - m));
    if m == 1 {
        assert(all.skip(d.len() - 1).reverse() =~= all.skip(d.len() as int).reverse().push(d.last()));
        assert(d.drop_last() =~= d.take(d.len() - 1));
    }
}

proof fn lemma_turn_inv_proceed(s: TurnStart, v: DrawView, d: Seq<Card>)
    requires
        turn_inv(s, v, d),
        spec_request(v) is Proceed,
    ensures
        turn_inv(s, spec_proceed(v).0, d),
{
    lemma_proceed_keeps_wf(v);
    let w = spec_proceed(v).0;
    let drawn = s.deck.skip(d.len() as int).reverse();
    if v.frames.len() == 1 {
        let f0 = v.frames[0];
        assert(v.frames.last() == f0);
        assert(v.frames.drop_last() =~= Seq::<FrameView>::empty());
        if v.pending is None {
            assert(f0.hand + Seq::<Card>::empty() =~= f0.hand);
        } else {
            match f0.stage {
                StageView::AwaitFirst { hand2, second_ace } => {
                    if !second_ace {
                        assert(w.frames[0].hand == s.hand);
                    }
                },
                _ => {},
            }
        }
    } else if v.frames.len() > 1 {
        let rest = v.frames.drop_last();
        assert(rest[0] == v.frames[0]);
        assert(waiting_ok(v.frames[0], v.bet));
        if w.frames.len() > 0 {
            assert(w.frames[0] == v.frames[0]);
        }
    }
}

proof fn lemma_turn_inv_action(s: TurnStart, v: DrawView, d: Seq<Card>, a: BlackjackAction)
    requires
        turn_inv(s, v, d),
        action_allowed(v, a),
        deck_suffices(v, d, a),
    ensures
        turn_inv(s, spec_take_action(v, d, a).0, spec_take_action(v, d, a).1),
{
    lemma_take_action_keeps_wf(v, d, a);
    let (w, d2, _) = spec_take_action(v, d, a);
    let drawn = s.deck.skip(d.len() as int).reverse();
    let m: int = match a {
        BlackjackAction::Stand => 0,
        BlackjackAction::Hit | BlackjackAction::DoubleDown => 1,
        BlackjackAction::Split => 2,
    };
    lemma_prefix_drop(s.deck, d, m);
    lemma_take_action_draws_from_top(v, d, a);
    assert(d2 == s.deck.take(d2.len() as int));
    let drawn2 = s.deck.skip(d2.len() as int).reverse();
    if v.frames.len() == 1 {
        let f0 = v.frames[0];
        assert(v.frames.last() == f0);
        assert(v.frames.drop_last() =~= Seq::<FrameView>::empty());
        match a {
            BlackjackAction::Stand => {},
            BlackjackAction::Hit => {
                assert(f0.hand.push(d.last()) =~= s.hand + drawn2);
            },
            BlackjackAction::DoubleDown => {
                assert(drawn.len() == 0);
                assert(f0.hand.push(d.last()) =~= s.hand + drawn2);
                assert(f0.hand =~= s.hand);
            },
            BlackjackAction::Split => {
                assert(drawn.len() == 0);
                assert(f0.hand =~= s.hand);
                if !is_ace(f0.hand[0].value) {
                    assert(w.frames[0].hand == s.hand);
                } else if !is_ace(f0.hand[1].value) {
                    assert(w.frames[0].hand == s.hand);
                }
            },
        }
    } else {
        let rest = v.frames.drop_last();
        assert(rest[0] == v.frames[0]);
        assert(waiting_ok(v.frames[0], v.bet));
        if w.frames.len() > 0 {
            assert(w.frames[0] == v.frames[0]);
        }
    }
}

} // verus!

verus! {

proof fn lemma_turn_inv_all(s: TurnStart, vs: Seq<DrawView>, ds: Seq<Seq<Card>>, i: int)
    requires
        is_turn(s, vs, ds),
        0 <= i < vs.len(),
    ensures
        turn_inv(s, vs[i], ds[i]),
    decreases i,
{
    if i == 0 {
        let v = vs[0];
        assert(s.deck.take(s.deck.len() as int) =~= s.deck);
        assert(s.deck.skip(s.deck.len() as int).reverse() =~= Seq::<Card>::empty());
        assert(s.hand + Seq::<Card>::empty() =~= s.hand);
        assert(v.frames[0] == fresh_frame(s.hand, s.balance, s.bet, s.is_split));
        assert(draw_wf(v));
    } else {
        lemma_turn_inv_all(s, vs, ds, i - 1);
        let j = i - 1;
        assert(draw_step(vs[j], ds[j], vs[j + 1], ds[j + 1]));
        assert(j + 1 == i);
        if spec_request(vs[i - 1]) is Proceed && spec_proceed(vs[i - 1]).0 == vs[i] && ds[i] == ds[i - 1] {
            lemma_turn_inv_proceed(s, vs[i - 1], ds[i - 1]);
        } else {
            let a = choose|a: BlackjackAction|
                #[trigger] action_allowed(vs[i - 1], a) && deck_suffices(vs[i - 1], ds[i - 1], a)
                    && spec_take_action(vs[i - 1], ds[i - 1], a).0 == vs[i] && spec_take_action(
                    vs[i - 1],
                    ds[i - 1],
                    a,
                ).1 == ds[i];
            lemma_turn_inv_action(s, vs[i - 1], ds[i - 1], a);
        }
    }
}

/// A whole turn, played to its end:
/// - the deck only loses cards from its top;
/// - without a split, the hand is the starting hand plus the cards drawn, in
///   the order they came off the deck, the second bet is none, and the bet
///   stands, or was doubled only on an affordable double down that drew
///   exactly one card onto a hand under 21;
/// - with a split, the hand is the starting hand, and the split was allowed:
///   the hand could still split, the balance covered twice the bet, and its
///   first two cards had the same points;
/// - a turn begun on a hand that may not split never ends in a split.
pub proof fn lemma_turn_result(s: TurnStart, vs: Seq<DrawView>, ds: Seq<Seq<Card>>)
    requires
        is_turn(s, vs, ds),
        spec_request(vs.last()) is Done,
    ensures
        ({
            let d = ds.last();
            let k = d.len() as int;
            let (h, r) = vs.last().finished.unwrap();
            &&& vs.last().finished is Some
            &&& k <= s.deck.len()
            &&& d == s.deck.take(k)
            &&& r.split is None ==> {
                &&& h == s.hand + s.deck.skip(k).reverse()
                &&& r.bets.1 == 0
                &&& (r.bets.0 == s.bet || (r.bets.0 == 2 * s.bet && 2 * s.bet <= s.balance
                    && spec_hand_value(s.hand).count < 21 && h.len() == s.hand.len() + 1))
            }
            &&& r.split is Some ==> h == s.hand && split_ok(s)
            &&& s.is_split ==> r.split is None
        }),
{
    lemma_turn_inv_all(s, vs, ds, vs.len() - 1);
}

} // verus!

verus! {

/// At the start of a turn on a hand under 21, the split is offered exactly
/// when the hand may still split, the balance covers twice the bet and the
/// first two cards have the same points; the double down exactly when the
/// balance covers twice the bet. Standing at once ends the turn with the hand
/// as it was, the deck untouched, no split and the bet as it was.
pub proof fn lemma_turn_start(s: TurnStart)
    requires
        playing_ok(fresh_frame(s.hand, s.balance, s.bet, s.is_split)),
        spec_hand_value(s.hand).count < 21,
    ensures
        spec_request(start_view(s)) == (DrawRequest::Ask {
            can_split: !s.is_split && 2 * s.bet <= s.balance && card_points(s.hand[0].value)
                == card_points(s.hand[1].value),
            can_double_down: 2 * s.bet <= s.balance,
        }),
        spec_take_action(start_view(s), s.deck, BlackjackAction::Stand).1 == s.deck,
        spec_request(spec_take_action(start_view(s), s.deck, BlackjackAction::Stand).0) is Proceed,
        spec_proceed(spec_take_action(start_view(s), s.deck, BlackjackAction::Stand).0).0.finished
            == Some((s.hand, ResultView { split: None, bets: (s.bet, 0u32) })),
{
    let v = start_view(s);
    assert(v.frames.last() == fresh_frame(s.hand, s.balance, s.bet, s.is_split));
    assert(v.frames.drop_last() =~= Seq::<FrameView>::empty());
}

/// The turn has split its first hand.
pub open spec fn split_taken(v: DrawView) -> bool {
    if v.frames.len() > 0 {
        !(v.frames[0].stage is Playing)
    } else {
        &&& (v.pending matches Some((h, r)) ==> r.split is Some)
        &&& (v.finished matches Some((h, r)) ==> r.split is Some)
    }
}

proof fn lemma_split_taken_step(s: TurnStart, v1: DrawView, d1: Seq<Card>, v2: DrawView, d2: Seq<Card>)
    requires
        turn_inv(s, v1, d1),
        split_taken(v1),
        draw_step(v1, d1, v2, d2),
    ensures
        split_taken(v2),
{
    if v1.frames.len() > 1 {
        let rest = v1.frames.drop_last();
        assert(rest[0] == v1.frames[0]);
        if v2.frames.len() > 0 {
            assert(v2.frames[0] == v1.frames[0]);
        }
    } else if v1.frames.len() == 1 {
        assert(v1.frames.last() == v1.frames[0]);
        assert(v1.frames.drop_last() =~= Seq::<FrameView>::empty());
        assert(v1.pending is Some);
        assert(spec_request(v1) is Proceed);
        if v2.frames.len() > 0 {
            assert(!(v2.frames[0].stage is Playing));
        }
    }
}

/// A turn whose first action is a split ends with two split hands.
pub proof fn lemma_split_first_ends_split(s: TurnStart, vs: Seq<DrawView>, ds: Seq<Seq<Card>>)
    requires
        is_turn(s, vs, ds),
        vs.len() >= 2,
        action_allowed(vs[0], BlackjackAction::Split),
        vs[1] == spec_take_action(vs[0], ds[0], BlackjackAction::Split).0,
        spec_request(vs.last()) is Done,
    ensures
        vs.last().finished matches Some((h, r)) && r.split is Some,
{
    lemma_split_taken_all(s, vs, ds, vs.len() - 1);
    lemma_turn_inv_all(s, vs, ds, vs.len() - 1);
}

proof fn lemma_split_taken_all(s: TurnStart, vs: Seq<DrawView>, ds: Seq<Seq<Card>>, i: int)
    requires
        is_turn(s, vs, ds),
        vs.len() >= 2,
        action_allowed(vs[0], BlackjackAction::Split),
        vs[1] == spec_take_action(vs[0], ds[0], BlackjackAction::Split).0,
        1 <= i < vs.len(),
    ensures
        split_taken(vs[i]),
    decreases i,
{
    if i == 1 {
        let v = vs[0];
        assert(v.frames.last() == v.frames[0]);
        assert(v.frames.drop_last() =~= Seq::<FrameView>::empty());
    } else {
        lemma_split_taken_all(s, vs, ds, i - 1);
        lemma_turn_inv_all(s, vs, ds, i - 1);
        let j = i - 1;
        assert(draw_step(vs[j], ds[j], vs[j + 1], ds[j + 1]));
        lemma_split_taken_step(s, vs[j], ds[j], vs[j + 1], ds[j + 1]);
    }
}

} // verus!

verus! {

/// Once the first hand of a split is over with bet `bet1`, the second hand is
/// played (unless it starts with an ace) on the balance less `bet1`: it is a
/// new hand, not hit, that may split again, with the same bet; so it is
/// offered a double down only when that balance covers twice the bet, and a
/// split only then and when its two cards have the same points.
pub proof fn lemma_second_hand_balance(v: DrawView, hand2: Seq<Card>)
    requires
        draw_wf(v),
        v.pending is Some,
        v.frames.len() > 0,
        v.frames.last().stage == (StageView::AwaitFirst { hand2, second_ace: false }),
    ensures
        ({
            let w = spec_proceed(v).0;
            let p = v.frames.last();
            let (hand1, r) = v.pending.unwrap();
            let second = w.frames.last();
            &&& w.frames.len() == v.frames.len() + 1
            &&& w.pending is None
            &&& w.frames[v.frames.len() - 1].stage == (StageView::AwaitSecond { hand1, bet1: r.bets.0 })
            &&& second.hand == hand2
            &&& second.bet == p.bet
            &&& second.balance == p.balance - r.bets.0
            &&& !second.has_hit
            &&& !second.is_split
            &&& second.stage is Playing
            &&& spec_hand_value(hand2).count < 21 ==> spec_request(w) == (DrawRequest::Ask {
                can_split: 2 * p.bet <= p.balance - r.bets.0 && card_points(hand2[0].value)
                    == card_points(hand2[1].value),
                can_double_down: 2 * p.bet <= p.balance - r.bets.0,
            })
        }),
{
    let p = v.frames.last();
    let r = v.pending.unwrap().1;
    assert(waiting_ok(p, v.bet));
    assert(p.bet == v.bet);
    assert(2 * p.bet <= p.balance);
}

/// A split draws the top card of the deck onto the first card and the next
/// one onto the second. Unless the first card is an ace, the first hand is
/// played next on the whole balance; when it is an ace and the second card is
/// not, the second hand is played next on the balance less the bet.
pub proof fn lemma_split_hands(v: DrawView, deck: Seq<Card>)
    requires
        draw_wf(v),
        action_allowed(v, BlackjackAction::Split),
        deck_suffices(v, deck, BlackjackAction::Split),
    ensures
        ({
            let f = v.frames.last();
            let n = deck.len();
            let (w, d2, shown) = spec_take_action(v, deck, BlackjackAction::Split);
            let hand1 = seq![f.hand[0], deck[n - 1]];
            let hand2 = seq![f.hand[1], deck[n - 2]];
            &&& d2 == deck.take(n - 2)
            &&& shown[0] == ShowView::NewHands(hand1, hand2)
            &&& !is_ace(f.hand[0].value) ==> {
                &&& w.frames.last().hand == hand1
                &&& w.frames.last().balance == f.balance
                &&& w.frames.last().bet == f.bet
            }
            &&& (is_ace(f.hand[0].value) && !is_ace(f.hand[1].value)) ==> {
                &&& w.frames.last().hand == hand2
                &&& w.frames.last().balance == f.balance - f.bet
                &&& w.frames.last().bet == f.bet
            }
            &&& (is_ace(f.hand[0].value) && is_ace(f.hand[1].value)) ==> w.pending == Some(
                (f.hand, ResultView { split: Some((hand1, hand2)), bets: (f.bet, f.bet) }),
            )
        }),
{
}

} // verus!

verus! {

/// The player's actions on the hand being played:
/// - standing ends the hand as it is, on its bet, without a split, and shows it;
/// - hitting puts the top card of the deck on the hand, which goes on being
///   played, now hit, and shows it;
/// - doubling down puts the top card on the hand and ends it on twice the
///   bet, without a split, and shows it.
/// None of them touches the hands the turn is waiting on.
pub proof fn lemma_take_action_law(v: DrawView, deck: Seq<Card>, action: BlackjackAction)
    requires
        draw_wf(v),
        action_allowed(v, action),
        deck_suffices(v, deck, action),
    ensures
        ({
            let f = v.frames.last();
            let n = v.frames.len();
            let (w, d2, shown) = spec_take_action(v, deck, action);
            &&& forall|i: int| 0 <= i < n - 1 ==> #[trigger] w.frames[i] == v.frames[i]
            &&& w.finished is None
            &&& w.bet == v.bet
            &&& action is Stand ==> {
                &&& d2 == deck
                &&& w.frames.len() == n - 1
                &&& w.pending == Some((f.hand, ResultView { split: None, bets: (f.bet, 0u32) }))
                &&& shown == seq![ShowView::PlayerHand(f.hand), ShowView::Pause]
            }
            &&& action is Hit ==> {
                &&& d2 == deck.drop_last()
                &&& w.frames.len() == n
                &&& w.pending is None
                &&& w.frames.last().hand == f.hand.push(deck.last())
                &&& w.frames.last().has_hit
                &&& w.frames.last().bet == f.bet && w.frames.last().balance == f.balance
                &&& w.frames.last().is_split == f.is_split && w.frames.last().stage is Playing
                &&& shown == seq![ShowView::PlayerHand(f.hand.push(deck.last())), ShowView::Pause]
            }
            &&& action is DoubleDown ==> {
                &&& d2 == deck.drop_last()
                &&& w.frames.len() == n - 1
                &&& 2 * f.bet <= f.balance
                &&& w.pending == Some(
                    (
                        f.hand.push(deck.last()),
                        ResultView { split: None, bets: ((2 * f.bet) as u32, 0u32) },
                    ),
                )
                &&& shown == seq![ShowView::PlayerHand(f.hand.push(deck.last())), ShowView::Pause]
            }
        }),
{
    let (w, d2, shown) = spec_take_action(v, deck, action);
    assert forall|i: int| 0 <= i < v.frames.len() - 1 implies #[trigger] w.frames[i] == v.frames[i] by {
        if action is Split {
            let f = v.frames.last();
            if is_ace(f.hand[0].value) {
                if !is_ace(f.hand[1].value) {
                    assert(w.frames[i] == v.frames.drop_last()[i]);
                }
            }
        }
    }
}

/// What the turn asks for: the player chooses exactly when no finished hand
/// is waiting to be handed on and the hand being played counts under 21;
/// otherwise a step without input follows, until the turn is over. A hand
/// at 21 or more ends on its bet without a split.
pub proof fn lemma_request_law(v: DrawView)
    requires
        draw_wf(v),
    ensures
        spec_request(v) is Done <==> v.finished is Some,
        spec_request(v) is Ask <==> (v.finished is None && v.pending is None && v.frames.len() > 0
            && spec_hand_value(v.frames.last().hand).count < 21),
        (v.finished is None && v.pending is None && v.frames.len() > 0 && spec_hand_value(
            v.frames.last().hand,
        ).count >= 21) ==> {
            let w = spec_proceed(v).0;
            &&& w.frames == v.frames.drop_last()
            &&& w.pending == Some(
                (
                    v.frames.last().hand,
                    ResultView { split: None, bets: (v.frames.last().bet, 0u32) },
                ),
            )
        },
{
}

/// Handing on finished hands: the turn ends with the last finished hand when
/// no hand is waiting; a split hand waiting on its second hand ends with both
/// hands, the first hand's bet and the second's.
pub proof fn lemma_hand_on_law(v: DrawView, hand1: Seq<Card>, bet1: u32)
    requires
        draw_wf(v),
        v.pending is Some,
    ensures
        v.frames.len() == 0 ==> spec_proceed(v).0.finished == v.pending,
        (v.frames.len() > 0 && v.frames.last().stage == (StageView::AwaitSecond { hand1, bet1 }))
            ==> {
            let (h, r) = v.pending.unwrap();
            let w = spec_proceed(v).0;
            &&& w.frames == v.frames.drop_last()
            &&& w.pending == Some(
                (v.frames.last().hand, ResultView { split: Some((hand1, h)), bets: (bet1, r.bets.1) }),
            )
        },
{
}

} // verus!
