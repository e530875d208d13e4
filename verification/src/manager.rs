use vstd::prelude::*;
use crate::cards::Card;
use crate::game::{
    Game, BiddingState, GameEvent, alive_count, spec_alive, possible_bids_ok, alive_filter,
    lemma_alive_filter, lemma_alive_filter_from, lemma_alive_filter_keys_distinct,
    lemma_alive_filter_all,
};
use crate::player::Turn;
use crate::messages::{
    ServerMessage, UserClaims, PlayerStatus, GetLobbyDto, GameError, LobbyError, TurnError,
    BiddingError, ClientGameMessage, spec_claims_id, copy_claims,
};
use crate::pmap::{key_index, lemma_key_index, lemma_key_index_same_keys, smap_seq, smap_new, smap_insert, smap_entries};

verus! {

/// A room before its game starts (with the set of players who declared
/// themselves ready), or the running game.
pub enum LobbyState {
    NotStarted(Vec<String>),
    Playing(Game),
}

/// A room: who sits in it, and whether its game runs.
pub struct Lobby {
    pub players: indexmap::IndexMap<String, PlayerStatus>,
    pub state: LobbyState,
}

/// One delivery the transport owes after a command: the same message to a
/// list of players, or a private message to one player. Deliveries are owed
/// in list order.
#[derive(Debug, Clone, PartialEq, Eq)]
pub enum Outbound {
    Broadcast { to: Vec<String>, msg: ServerMessage },
    Unicast { to: String, msg: ServerMessage },
}

/// The registry of lobbies and the player-to-lobby index. Commands mutate
/// it and hand back the messages the transport must send, in order.
pub struct Manager {
    pub lobbies: Vec<(String, Lobby)>,
    pub players_lobby: Vec<(String, String)>,
}

/// A room is sound: member keys are distinct; before the start the ready
/// list holds no duplicates, and a running game is well formed.
pub open spec fn lobby_wf(l: Lobby) -> bool {
    &&& forall|a: int, b: int|
        0 <= a < b < smap_seq(l.players).len() ==> smap_seq(l.players)[a].0@ != smap_seq(
            l.players,
        )[b].0@
    &&& match l.state {
        LobbyState::NotStarted(ready) => forall|a: int, b: int|
            0 <= a < b < ready@.len() ==> ready@[a]@ != ready@[b]@,
        LobbyState::Playing(g) => g.wf(),
    }
}

impl Manager {
    pub open spec fn wf(self) -> bool {
        &&& forall|a: int, b: int|
            0 <= a < b < self.lobbies@.len() ==> self.lobbies@[a].0@ != self.lobbies@[b].0@
        &&& forall|a: int, b: int|
            0 <= a < b < self.players_lobby@.len() ==> self.players_lobby@[a].0@
                != self.players_lobby@[b].0@
        &&& forall|i: int| 0 <= i < self.lobbies@.len() ==> lobby_wf(#[trigger] self.lobbies@[i].1)
    }

    /// A manager with no lobbies yet.
    pub fn new() -> (m: Manager)
        ensures
            m.wf(),
            m.lobbies@.len() == 0,
            m.players_lobby@.len() == 0,
    {
        Manager { lobbies: Vec::new(), players_lobby: Vec::new() }
    }

    /// The slot of the lobby whose id reads `id`.
    fn find_lobby(&self, id: &String) -> (r: Option<usize>)
        ensures
            ({
                let i = key_index(self.lobbies@, id@);
                if i >= 0 {
                    r == Some(i as usize)
                } else {
                    r == None::<usize>
                }
            }),
    {
        proof {
            lemma_key_index(self.lobbies@, id@);
        }
        let mut i: usize = 0;
        while i < self.lobbies.len()
            invariant
                i <= self.lobbies@.len(),
                forall|k: int| 0 <= k < i ==> (#[trigger] self.lobbies@[k]).0@ != id@,
            decreases self.lobbies@.len() - i,
        {
            let e = &self.lobbies[i];
            if e.0 == *id {
                proof {
                    lemma_key_index(self.lobbies@, id@);
                    let ki = key_index(self.lobbies@, id@);
                    if ki < 0 {
                        assert(self.lobbies@[i as int].0@ != id@);
                    }
                    if ki != i as int {
                        if ki < i {
                            assert(self.lobbies@[ki].0@ != id@);
                        }
                    }
                }
                return Some(i);
            }
            i = i + 1;
        }
        proof {
            lemma_key_index(self.lobbies@, id@);
            let ki = key_index(self.lobbies@, id@);
            if ki >= 0 {
                assert(self.lobbies@[ki].0@ != id@);
            }
        }
        None
    }

    /// The lobby the player is indexed under, if any.
    fn find_players_lobby(&self, player_id: &String) -> (r: Option<String>)
        ensures
            ({
                let i = key_index(self.players_lobby@, player_id@);
                if i >= 0 {
                    r == Some(self.players_lobby@[i].1)
                } else {
                    r == None::<String>
                }
            }),
    {
        proof {
            lemma_key_index(self.players_lobby@, player_id@);
        }
        let mut i: usize = 0;
        while i < self.players_lobby.len()
            invariant
                i <= self.players_lobby@.len(),
                forall|k: int| 0 <= k < i ==> (#[trigger] self.players_lobby@[k]).0@ != player_id@,
            decreases self.players_lobby@.len() - i,
        {
            let e = &self.players_lobby[i];
            if e.0 == *player_id {
                proof {
                    lemma_key_index(self.players_lobby@, player_id@);
                    let ki = key_index(self.players_lobby@, player_id@);
                    if ki < 0 {
                        assert(self.players_lobby@[i as int].0@ != player_id@);
                    }
                    if ki != i as int && ki < i {
                        assert(self.players_lobby@[ki].0@ != player_id@);
                    }
                }
                return Some(e.1.clone());
            }
            i = i + 1;
        }
        proof {
            lemma_key_index(self.players_lobby@, player_id@);
            let ki = key_index(self.players_lobby@, player_id@);
            if ki >= 0 {
                assert(self.players_lobby@[ki].0@ != player_id@);
            }
        }
        None
    }

    /// Index the player under a lobby, replacing any older entry.
    fn index_player(&mut self, player_id: String, lobby_id: String)
        ensures
            ({
                let es = old(self).players_lobby@;
                let i = key_index(es, player_id@);
                if i >= 0 {
                    final(self).players_lobby@ == es.update(i, (es[i].0, lobby_id))
                } else {
                    final(self).players_lobby@ == es.push((player_id, lobby_id))
                }
            }),
            final(self).lobbies == old(self).lobbies,
    {
        proof {
            lemma_key_index(self.players_lobby@, player_id@);
        }
        let ghost es = self.players_lobby@;
        let mut i: usize = 0;
        while i < self.players_lobby.len()
            invariant
                i <= es.len(),
                es == self.players_lobby@,
                es == old(self).players_lobby@,
                self.lobbies == old(self).lobbies,
                forall|k: int| 0 <= k < i ==> (#[trigger] es[k]).0@ != player_id@,
            decreases es.len() - i,
        {
            let matches_key = self.players_lobby[i].0 == player_id;
            if matches_key {
                proof {
                    lemma_key_index(es, player_id@);
                    let ki = key_index(es, player_id@);
                    if ki < 0 {
                        assert(es[i as int].0@ != player_id@);
                    }
                    if ki < i {
                        assert(es[ki].0@ != player_id@);
                    }
                }
                let old_key = self.players_lobby[i].0.clone();
                self.players_lobby.set(i, (old_key, lobby_id));
                proof {
                    assert(self.players_lobby@ =~= es.update(i as int, (es[i as int].0, lobby_id)));
                }
                return ;
            }
            i = i + 1;
        }
        proof {
            lemma_key_index(es, player_id@);
            let ki = key_index(es, player_id@);
            if ki >= 0 {
                assert(es[ki].0@ != player_id@);
            }
        }
        self.players_lobby.push((player_id, lobby_id));
    }

    /// Open a lobby under the caller's own id; an existing lobby under that
    /// id is replaced by the fresh one. Returns the lobby id.
    pub fn create_lobby(&mut self, user_id: String) -> (r: String)
        requires
            old(self).wf(),
        ensures
            final(self).wf(),
            r == user_id,
            final(self).players_lobby == old(self).players_lobby,
            key_index(old(self).lobbies@, user_id@) >= 0 ==> final(self).lobbies@.len() == old(self).lobbies@.len(),
            key_index(old(self).lobbies@, user_id@) < 0 ==> final(self).lobbies@.len() == old(self).lobbies@.len() + 1,
            exists|ni: int|
                0 <= ni < final(self).lobbies@.len() && (#[trigger] final(self).lobbies@[ni]).0@
                    == user_id@ && smap_seq(final(self).lobbies@[ni].1.players).len() == 0 && (
                final(self).lobbies@[ni].1.state matches LobbyState::NotStarted(rs) && rs@.len()
                    == 0),
    {
        proof {
            lemma_key_index(self.lobbies@, user_id@);
        }
        let ghost es = self.lobbies@;
        let _n = self.lobbies.len();
        let members = smap_new();
        let fresh = Lobby { players: members, state: LobbyState::NotStarted(Vec::new()) };
        let ghost gf = fresh;
        let slot = self.find_lobby(&user_id);
        match slot {
            Some(i) => {
                let key = self.lobbies[i].0.clone();
                self.lobbies.set(i, (key, fresh));
                proof {
                    lemma_key_index(es, user_id@);
                    let ki = key_index(es, user_id@);
                    assert(ki >= 0);
                    assert(i as int == ki);
                    assert(es[ki].0@ == user_id@);
                    assert(self.lobbies@[i as int].1 == gf);
                    assert(smap_seq(gf.players).len() == 0);
                    assert(self.lobbies@[i as int].0@ == user_id@);
                    assert(forall|k: int|
                        0 <= k < es.len() ==> (#[trigger] self.lobbies@[k]).0 == es[k].0);
                }
            },
            None => {
                self.lobbies.push((user_id.clone(), fresh));
                proof {
                    assert(self.lobbies@[es.len() as int].1 == gf);
                    assert(smap_seq(gf.players).len() == 0);
                    assert(self.lobbies@[es.len() as int].0@ == user_id@);
                    assert(forall|k: int|
                        0 <= k < es.len() ==> (#[trigger] self.lobbies@[k]).0 == es[k].0);
                }
            },
        }
        user_id
    }

    /// The joinable lobbies: those whose game has not started, each with its
    /// member count.
    pub fn get_lobbies(&self) -> (r: Vec<GetLobbyDto>)
        ensures
            r@.len() == not_started_filter(self.lobbies@).len(),
            forall|j: int|
                0 <= j < r@.len() ==> (#[trigger] r@[j]).id == not_started_filter(
                    self.lobbies@,
                )[j].0 && r@[j].player_count == smap_seq(
                    not_started_filter(self.lobbies@)[j].1.players,
                ).len(),
    {
        let mut r: Vec<GetLobbyDto> = Vec::new();
        let mut i: usize = 0;
        while i < self.lobbies.len()
            invariant
                i <= self.lobbies@.len(),
                r@.len() == not_started_filter(self.lobbies@.take(i as int)).len(),
                forall|j: int|
                    0 <= j < r@.len() ==> (#[trigger] r@[j]).id == not_started_filter(
                        self.lobbies@.take(i as int),
                    )[j].0 && r@[j].player_count == smap_seq(
                        not_started_filter(self.lobbies@.take(i as int))[j].1.players,
                    ).len(),
            decreases self.lobbies@.len() - i,
        {
            proof {
                assert(self.lobbies@.take(i + 1).drop_last() =~= self.lobbies@.take(i as int));
                assert(self.lobbies@.take(i + 1).last() == self.lobbies@[i as int]);
            }
            let e = &self.lobbies[i];
            match &e.1.state {
                LobbyState::NotStarted(_) => {
                    let n = crate::pmap::smap_len(&e.1.players);
                    r.push(GetLobbyDto { id: e.0.clone(), player_count: n });
                },
                LobbyState::Playing(_) => {},
            }
            i = i + 1;
        }
        proof {
            assert(self.lobbies@.take(self.lobbies@.len() as int) =~= self.lobbies@);
        }
        r
    }
}

/// The same message owed to each member of the given list, or a private
/// deck: how a set opening reads as deliveries.
pub open spec fn init_msgs(
    out: Seq<Outbound>,
    decks: Seq<(String, Vec<Card>)>,
    next: Seq<char>,
    upcard: Card,
    possible: Seq<usize>,
) -> bool {
    &&& out.len() == decks.len() + 2
    &&& (out[0] matches Outbound::Broadcast { to, msg } && to@.len() == decks.len() && (forall|
        k: int,
    | 0 <= k < decks.len() ==> to@[k] == (#[trigger] decks[k]).0) && msg == (
    ServerMessage::SetStart { upcard }))
    &&& forall|k: int|
        0 <= k < decks.len() ==> out[1 + k] == (Outbound::Unicast {
            to: (#[trigger] decks[k]).0,
            msg: ServerMessage::PlayerDeck(decks[k].1),
        })
    &&& (out[decks.len() as int + 1] matches Outbound::Broadcast { to, msg } && to@.len()
        == decks.len() && (forall|k: int|
        0 <= k < decks.len() ==> to@[k] == (#[trigger] decks[k]).0) && (
    msg matches ServerMessage::PlayerBiddingTurn { player_id, possible_bids } && player_id@ == next
        && possible_bids@ == possible))
}

/// How many private deck messages the list owes to player `p`.
pub open spec fn deck_unicasts_to(out: Seq<Outbound>, p: Seq<char>) -> int
    decreases out.len(),
{
    if out.len() == 0 {
        0
    } else {
        deck_unicasts_to(out.drop_last(), p) + match out.last() {
            Outbound::Unicast { to, msg } => if to@ == p && (msg matches ServerMessage::PlayerDeck(
                _,
            )) {
                1int
            } else {
                0int
            },
            _ => 0int,
        }
    }
}

proof fn lemma_unicount_concat(a: Seq<Outbound>, b: Seq<Outbound>, p: Seq<char>)
    ensures
        deck_unicasts_to(a + b, p) == deck_unicasts_to(a, p) + deck_unicasts_to(b, p),
    decreases b.len(),
{
    if b.len() == 0 {
        assert(a + b =~= a);
    } else {
        lemma_unicount_concat(a, b.drop_last(), p);
        assert((a + b).drop_last() =~= a + b.drop_last());
        assert((a + b).last() == b.last());
    }
}

/// The deck messages of a set opening, one per hand dealt.
pub open spec fn deck_msgs(decks: Seq<(String, Vec<Card>)>) -> Seq<Outbound> {
    Seq::new(
        decks.len(),
        |k: int| Outbound::Unicast { to: decks[k].0, msg: ServerMessage::PlayerDeck(decks[k].1) },
    )
}

proof fn lemma_unicount_decks(decks: Seq<(String, Vec<Card>)>, p: Seq<char>)
    requires
        forall|a: int, b: int| 0 <= a < b < decks.len() ==> decks[a].0@ != decks[b].0@,
    ensures
        deck_unicasts_to(deck_msgs(decks), p) == (if exists|k: int|
            0 <= k < decks.len() && (#[trigger] decks[k]).0@ == p {
            1int
        } else {
            0int
        }),
    decreases decks.len(),
{
    let ms = deck_msgs(decks);
    if decks.len() == 0 {
    } else {
        let d0 = decks.drop_last();
        assert(ms.drop_last() =~= deck_msgs(d0));
        assert(forall|k: int| 0 <= k < d0.len() ==> #[trigger] d0[k] == decks[k]);
        lemma_unicount_decks(d0, p);
        assert(ms.last() == (Outbound::Unicast {
            to: decks[decks.len() - 1].0,
            msg: ServerMessage::PlayerDeck(decks[decks.len() - 1].1),
        }));
        if decks[decks.len() - 1].0@ == p {
            assert(decks[decks.len() - 1].0@ == p);
            if exists|k: int| 0 <= k < d0.len() && (#[trigger] d0[k]).0@ == p {
                let k = choose|k: int| 0 <= k < d0.len() && (#[trigger] d0[k]).0@ == p;
                assert(decks[k].0@ != decks[decks.len() - 1].0@);
                assert(false);
            }
        } else {
            if exists|k: int| 0 <= k < decks.len() && (#[trigger] decks[k]).0@ == p {
                let k = choose|k: int| 0 <= k < decks.len() && (#[trigger] decks[k]).0@ == p;
                assert(k < d0.len());
                assert(d0[k].0@ == p);
            } else {
                if exists|k: int| 0 <= k < d0.len() && (#[trigger] d0[k]).0@ == p {
                    let k = choose|k: int| 0 <= k < d0.len() && (#[trigger] d0[k]).0@ == p;
                    assert(decks[k].0@ == p);
                }
            }
        }
    }
}

/// Exactly one private deck goes out per dealt player when a set opens, and
/// none to anyone else.
pub proof fn lemma_one_deck_each(
    out: Seq<Outbound>,
    decks: Seq<(String, Vec<Card>)>,
    next: Seq<char>,
    upcard: Card,
    possible: Seq<usize>,
    p: Seq<char>,
)
    requires
        init_msgs(out, decks, next, upcard, possible),
        forall|a: int, b: int| 0 <= a < b < decks.len() ==> decks[a].0@ != decks[b].0@,
    ensures
        deck_unicasts_to(out, p) == (if exists|k: int|
            0 <= k < decks.len() && (#[trigger] decks[k]).0@ == p {
            1int
        } else {
            0int
        }),
{
    let first = seq![out[0]];
    let last = seq![out[decks.len() as int + 1]];
    assert(out =~= first + deck_msgs(decks) + last);
    lemma_unicount_concat(first + deck_msgs(decks), last, p);
    lemma_unicount_concat(first, deck_msgs(decks), p);
    assert(deck_unicasts_to(first, p) == 0) by {
        assert(first.len() == 1);
        assert(first.last() == out[0]);
        assert(!(out[0] matches Outbound::Unicast { to, msg }));
        assert(first.drop_last() =~= Seq::<Outbound>::empty());
        assert(deck_unicasts_to(first.drop_last(), p) == 0);
    }
    assert(deck_unicasts_to(last, p) == 0) by {
        assert(last.len() == 1);
        assert(last.last() == out[decks.len() as int + 1]);
        assert(!(out[decks.len() as int + 1] matches Outbound::Unicast { to, msg }));
        assert(last.drop_last() =~= Seq::<Outbound>::empty());
        assert(deck_unicasts_to(last.drop_last(), p) == 0);
    }
    lemma_unicount_decks(decks, p);
}

impl Manager {
    /// The member names of a lobby, in seat order.
    fn lobby_members(l: &Lobby) -> (r: Vec<String>)
        ensures
            r@.len() == smap_seq(l.players).len(),
            forall|j: int| 0 <= j < r@.len() ==> #[trigger] r@[j] == smap_seq(l.players)[j].0,
    {
        let es = smap_entries(&l.players);
        let mut r: Vec<String> = Vec::new();
        let mut i: usize = 0;
        while i < es.len()
            invariant
                i <= es@.len(),
                es@ == smap_seq(l.players),
                r@.len() == i,
                forall|j: int| 0 <= j < i ==> #[trigger] r@[j] == smap_seq(l.players)[j].0,
            decreases es@.len() - i,
        {
            let e = &es[i];
            r.push(e.0.clone());
            i = i + 1;
        }
        r
    }

    /// The member statuses of a lobby, in seat order.
    fn lobby_statuses(l: &Lobby) -> (r: Vec<PlayerStatus>)
        ensures
            r@.len() == smap_seq(l.players).len(),
            forall|j: int| 0 <= j < r@.len() ==> #[trigger] r@[j] == smap_seq(l.players)[j].1,
    {
        let es = smap_entries(&l.players);
        let mut r: Vec<PlayerStatus> = Vec::new();
        let mut i: usize = 0;
        while i < es.len()
            invariant
                i <= es@.len(),
                es@ == smap_seq(l.players),
                r@.len() == i,
                forall|j: int| 0 <= j < i ==> #[trigger] r@[j] == smap_seq(l.players)[j].1,
            decreases es@.len() - i,
        {
            let e = &es[i];
            r.push(crate::messages::copy_status(&e.1));
            i = i + 1;
        }
        r
    }

    /// The deliveries that open a set: the upcard to everyone, each hand in
    /// private, then the first bidding turn to everyone.
    pub fn init_set(
        decks: Vec<(String, Vec<Card>)>,
        next: String,
        upcard: Card,
        possible_bids: Vec<usize>,
    ) -> (out: Vec<Outbound>)
        ensures
            init_msgs(out@, decks@, next@, upcard, possible_bids@),
    {
        let mut players: Vec<String> = Vec::new();
        let mut i: usize = 0;
        while i < decks.len()
            invariant
                i <= decks@.len(),
                players@.len() == i,
                forall|k: int| 0 <= k < i ==> #[trigger] players@[k] == decks@[k].0,
            decreases decks@.len() - i,
        {
            let e = &decks[i];
            players.push(e.0.clone());
            i = i + 1;
        }
        let players2 = copy_names(&players);

        let mut out: Vec<Outbound> = Vec::new();
        let ghost ds = decks@;
        let ghost first = (Outbound::Broadcast { to: players, msg: ServerMessage::SetStart { upcard } });
        out.push(Outbound::Broadcast { to: players, msg: ServerMessage::SetStart { upcard } });
        let mut i: usize = 0;
        let mut rest = decks;
        let n = rest.len();
        while i < n
            invariant
                i <= n,
                n == ds.len(),
                rest@ =~= ds.skip(i as int),
                out@.len() == 1 + i,
                out@[0] == first,
                forall|k: int|
                    0 <= k < i ==> out@[1 + k] == (Outbound::Unicast {
                        to: (#[trigger] ds[k]).0,
                        msg: ServerMessage::PlayerDeck(ds[k].1),
                    }),
            decreases n - i,
        {
            let e = rest.remove(0);
            proof {
                assert(e == ds[i as int]);
                assert(rest@ =~= ds.skip(i + 1));
            }
            out.push(Outbound::Unicast { to: e.0, msg: ServerMessage::PlayerDeck(e.1) });
            i = i + 1;
        }
        out.push(
            Outbound::Broadcast {
                to: players2,
                msg: ServerMessage::PlayerBiddingTurn { player_id: next, possible_bids },
            },
        );
        out
    }
}

/// An equal copy of a list of names.
fn copy_names(v: &Vec<String>) -> (r: Vec<String>)
    ensures
        r@ == v@,
{
    let mut r: Vec<String> = Vec::new();
    let mut i: usize = 0;
    while i < v.len()
        invariant
            i <= v@.len(),
            r@.len() == i,
            forall|j: int| 0 <= j < i ==> #[trigger] r@[j] == v@[j],
        decreases v@.len() - i,
    {
        r.push(v[i].clone());
        i = i + 1;
    }
    proof {
        assert(r@ =~= v@);
    }
    r
}

proof fn lemma_unicount_all_broadcast(s: Seq<Outbound>, p: Seq<char>)
    requires
        forall|j: int| 0 <= j < s.len() ==> (#[trigger] s[j]) matches Outbound::Broadcast { .. },
    ensures
        deck_unicasts_to(s, p) == 0,
    decreases s.len(),
{
    if s.len() > 0 {
        assert(forall|j: int|
            0 <= j < s.drop_last().len() ==> #[trigger] s.drop_last()[j] == s[j]);
        lemma_unicount_all_broadcast(s.drop_last(), p);
        assert(s.last() == s[s.len() - 1]);
    }
}

impl Manager {
    /// Join a lobby, or reconnect to its running game. Before the game
    /// starts the caller takes (or retakes) a seat; afterwards only seated
    /// players may return, and they are told to reconnect. Everyone in the
    /// lobby hears who joined.
    pub fn join_lobby(&mut self, lobby_id: String, user_claims: UserClaims) -> (r: (
        Result<(Vec<PlayerStatus>, bool), LobbyError>,
        Vec<Outbound>,
    ))
        requires
            old(self).wf(),
        ensures
            final(self).wf(),
            match r.0 {
                Err(LobbyError::InvalidLobby) => *final(self) == *old(self) && r.1@.len() == 0
                    && key_index(old(self).lobbies@, lobby_id@) < 0,
                Err(LobbyError::WrongLobby) => final(self).lobbies@ == old(self).lobbies@ && final(self).players_lobby@ == old(self).players_lobby@ && r.1@.len() == 0 && ({
                    let li = key_index(old(self).lobbies@, lobby_id@);
                    &&& li >= 0
                    &&& old(self).lobbies@[li].1.state is Playing
                    &&& key_index(
                        smap_seq(old(self).lobbies@[li].1.players),
                        spec_claims_id(user_claims),
                    ) < 0
                }),
                Err(_) => false,
                Ok(res) => ({
                    let li = key_index(old(self).lobbies@, lobby_id@);
                    &&& li >= 0
                    &&& final(self).lobbies@.len() == old(self).lobbies@.len()
                    &&& res.1 == (old(self).lobbies@[li].1.state is Playing)
                    &&& (old(self).lobbies@[li].1.state is NotStarted ==> key_index(
                        smap_seq(final(self).lobbies@[li].1.players),
                        spec_claims_id(user_claims),
                    ) >= 0)
                    &&& (old(self).lobbies@[li].1.state is Playing ==> final(self).lobbies@ == old(self).lobbies@ && key_index(
                        smap_seq(old(self).lobbies@[li].1.players),
                        spec_claims_id(user_claims),
                    ) >= 0)
                    &&& (old(self).lobbies@[li].1.state is NotStarted ==> ({
                        let es0 = smap_seq(old(self).lobbies@[li].1.players);
                        let esf = smap_seq(final(self).lobbies@[li].1.players);
                        let ki = key_index(es0, spec_claims_id(user_claims));
                        &&& (ki >= 0 ==> esf == es0.update(
                            ki,
                            (es0[ki].0, PlayerStatus { ready: false, player: user_claims }),
                        ))
                        &&& (ki < 0 ==> esf.len() == es0.len() + 1 && esf[es0.len() as int].0@
                            == spec_claims_id(user_claims) && esf[es0.len() as int].1 == (
                        PlayerStatus { ready: false, player: user_claims }) && (forall|k: int|
                            0 <= k < es0.len() ==> #[trigger] esf[k] == es0[k]))
                        &&& final(self).lobbies@[li].1.state == old(self).lobbies@[li].1.state
                    }))
                    &&& (forall|k: int|
                        0 <= k < old(self).lobbies@.len() && k != li ==> #[trigger] final(self).lobbies@[k] == old(self).lobbies@[k])
                    &&& ({
                        let pi = key_index(
                            final(self).players_lobby@,
                            spec_claims_id(user_claims),
                        );
                        pi >= 0 && final(self).players_lobby@[pi].1@ == lobby_id@
                    })
                    &&& (forall|k: int|
                        0 <= k < old(self).players_lobby@.len() && (#[trigger] old(self).players_lobby@[k]).0@ != spec_claims_id(user_claims) ==> final(self).players_lobby@[k] == old(self).players_lobby@[k])
                    &&& r.1@.len() == 1
                    &&& (r.1@[0] matches Outbound::Broadcast { to, msg } && msg == (
                    ServerMessage::PlayerJoined(user_claims)) && to@.len() == smap_seq(
                        final(self).lobbies@[li].1.players,
                    ).len() && (forall|k: int|
                        0 <= k < to@.len() ==> #[trigger] to@[k] == smap_seq(
                            final(self).lobbies@[li].1.players,
                        )[k].0))
                    &&& res.0@.len() == smap_seq(final(self).lobbies@[li].1.players).len()
                    &&& (forall|k: int|
                        0 <= k < res.0@.len() ==> #[trigger] res.0@[k] == smap_seq(
                            final(self).lobbies@[li].1.players,
                        )[k].1)
                }),
            },
    {
        let ghost ls0 = self.lobbies@;
        let li = match self.find_lobby(&lobby_id) {
            Some(i) => i,
            None => {
                return (Err(LobbyError::InvalidLobby), Vec::new());
            },
        };
        let player_id = user_claims.id();
        let _n = self.lobbies.len();
        proof {
            lemma_key_index(ls0, lobby_id@);
            assert((li as int) < ls0.len());
        }
        let (lkey, lobby) = self.lobbies.remove(li);
        let Lobby { players: mut seats, state } = lobby;
        let should_reconnect = match &state {
            LobbyState::NotStarted(_) => false,
            LobbyState::Playing(_) => true,
        };
        if should_reconnect {
            let member = crate::pmap::smap_get(&seats, &player_id);
            if member.is_none() {
                self.lobbies.insert(li, (lkey, Lobby { players: seats, state }));
                proof {
                    assert(self.lobbies@ =~= ls0);
                }
                return (Err(LobbyError::WrongLobby), Vec::new());
            }
        } else {
            let status = PlayerStatus::new(copy_claims(&user_claims));
            proof {
                lemma_key_index(smap_seq(seats), player_id@);
            }
            smap_insert(&mut seats, player_id.clone(), status);
            proof {
                let es0 = smap_seq(old(self).lobbies@[li as int].1.players);
                let ki = key_index(es0, player_id@);
                lemma_key_index(smap_seq(seats), player_id@);
                if ki >= 0 {
                    assert(smap_seq(seats)[ki].0@ == player_id@);
                    lemma_key_index(smap_seq(seats), player_id@);
                    let ki2 = key_index(smap_seq(seats), player_id@);
                    if ki2 < 0 {
                        assert(smap_seq(seats)[ki].0@ != player_id@);
                    }
                } else {
                    assert(smap_seq(seats)[es0.len() as int].0@ == player_id@);
                    let ki2 = key_index(smap_seq(seats), player_id@);
                    if ki2 < 0 {
                        assert(smap_seq(seats)[es0.len() as int].0@ != player_id@);
                    }
                }
                // keys stay distinct
                assert forall|a: int, b: int|
                    0 <= a < b < smap_seq(seats).len() implies smap_seq(seats)[a].0@ != smap_seq(
                    seats,
                )[b].0@ by {
                    if ki >= 0 {
                        assert(smap_seq(seats)[a].0 == es0[a].0);
                        assert(smap_seq(seats)[b].0 == es0[b].0);
                    } else {
                        if b < es0.len() {
                            assert(smap_seq(seats)[a].0 == es0[a].0);
                            assert(smap_seq(seats)[b].0 == es0[b].0);
                        } else {
                            assert(smap_seq(seats)[a].0 == es0[a].0);
                            assert(smap_seq(seats)[b].0@ == player_id@);
                            lemma_key_index(es0, player_id@);
                            assert(es0[a].0@ != player_id@);
                        }
                    }
                }
            }
        }
        let rebuilt = Lobby { players: seats, state };
        let statuses = Manager::lobby_statuses(&rebuilt);
        let members = Manager::lobby_members(&rebuilt);
        self.lobbies.insert(li, (lkey, rebuilt));
        proof {
            assert(forall|k: int|
                0 <= k < ls0.len() && k != li as int ==> #[trigger] self.lobbies@[k] == ls0[k]);
            assert(self.lobbies@[li as int].0 == ls0[li as int].0);
            if should_reconnect {
                assert(self.lobbies@ =~= ls0);
            }
        }
        let ghost lobby_id_v = lobby_id;
        self.index_player(player_id, lobby_id);
        proof {
            // the player index keeps distinct keys and now maps the joiner
            let pl0 = old(self).players_lobby@;
            let pl1 = self.players_lobby@;
            let pki = key_index(pl0, spec_claims_id(user_claims));
            lemma_key_index(pl0, spec_claims_id(user_claims));
            if pki >= 0 {
                lemma_key_index_same_keys(pl1, pl0, spec_claims_id(user_claims));
                assert(key_index(pl1, spec_claims_id(user_claims)) == pki);
                assert(pl1[pki].1 == lobby_id_v);
            } else {
                lemma_key_index(pl1, spec_claims_id(user_claims));
                let pki1 = key_index(pl1, spec_claims_id(user_claims));
                assert(pl1[pl0.len() as int].0@ == spec_claims_id(user_claims));
                if pki1 < 0 {
                    assert(pl1[pl0.len() as int].0@ != spec_claims_id(user_claims));
                }
                if pki1 < pl0.len() {
                    assert(pl0[pki1].0@ == pl1[pki1].0@);
                    assert(pl0[pki1].0@ != spec_claims_id(user_claims));
                }
                assert(pki1 == pl0.len());
                assert(pl1[pki1].1 == lobby_id_v);
            }
            assert forall|a: int, b: int|
                0 <= a < b < self.players_lobby@.len() implies self.players_lobby@[a].0@
                != self.players_lobby@[b].0@ by {
                if pki >= 0 {
                    assert(self.players_lobby@[a].0 == pl0[a].0);
                    assert(self.players_lobby@[b].0 == pl0[b].0);
                } else {
                    if b < pl0.len() {
                        assert(self.players_lobby@[a].0 == pl0[a].0);
                        assert(self.players_lobby@[b].0 == pl0[b].0);
                    } else {
                        assert(self.players_lobby@[a].0 == pl0[a].0);
                        assert(self.players_lobby@[b].0@ == spec_claims_id(user_claims));
                        assert(pl0[a].0@ != spec_claims_id(user_claims));
                    }
                }
            }
        }
        let mut out: Vec<Outbound> = Vec::new();
        out.push(Outbound::Broadcast { to: members, msg: ServerMessage::PlayerJoined(user_claims) });
        (Ok((statuses, should_reconnect)), out)
    }
}

/// `p` names a living seat of the game.
pub open spec fn alive_in(g: Game, p: Seq<char>) -> bool {
    exists|i: int|
        0 <= i < g.entries().len() && (#[trigger] g.entries()[i]).0@ == p && spec_alive(
            g.entries()[i].1,
        )
}

/// A delivery never hands a turn to anyone but a living seat, and never
/// offers bids outside the rules.
pub open spec fn turn_msgs_ok(o: Outbound, g: Game) -> bool {
    let m = match o {
        Outbound::Broadcast { to, msg } => msg,
        Outbound::Unicast { to, msg } => msg,
    };
    match m {
        ServerMessage::PlayerTurn { player_id } => alive_in(g, player_id@),
        ServerMessage::PlayerBiddingTurn { player_id, possible_bids } => alive_in(g, player_id@)
            && possible_bids_ok(g, possible_bids@),
        _ => true,
    }
}

/// The smallest slot whose name reads `p`, or -1.
pub open spec fn name_index(s: Seq<String>, p: Seq<char>) -> int
    decreases s.len(),
{
    if s.len() == 0 {
        -1
    } else if s[0]@ == p {
        0
    } else {
        let r = name_index(s.drop_first(), p);
        if r < 0 {
            -1
        } else {
            r + 1
        }
    }
}

pub proof fn lemma_name_index(s: Seq<String>, p: Seq<char>)
    ensures
        -1 <= name_index(s, p) < s.len(),
        name_index(s, p) >= 0 ==> s[name_index(s, p)]@ == p,
        name_index(s, p) == -1 ==> forall|i: int| 0 <= i < s.len() ==> s[i]@ != p,
        forall|i: int| 0 <= i < name_index(s, p) ==> s[i]@ != p,
    decreases s.len(),
{
    if s.len() > 0 && s[0]@ != p {
        lemma_name_index(s.drop_first(), p);
        assert forall|i: int| 0 <= i < s.len() && name_index(s, p) == -1 implies s[i]@ != p by {
            if i > 0 {
                assert(s.drop_first()[i - 1] == s[i]);
            }
        }
        assert forall|i: int| 0 <= i < name_index(s, p) implies s[i]@ != p by {
            if i > 0 {
                assert(s.drop_first()[i - 1] == s[i]);
            }
        }
    }
}

/// Dropping one slot from a list of distinct names keeps them distinct.
proof fn lemma_names_distinct_remove(s: Seq<String>, j: int)
    requires
        0 <= j < s.len(),
        forall|a: int, b: int| 0 <= a < b < s.len() ==> s[a]@ != s[b]@,
    ensures
        forall|a: int, b: int|
            0 <= a < b < s.remove(j).len() ==> s.remove(j)[a]@ != s.remove(j)[b]@,
{
    let r = s.remove(j);
    assert forall|a: int, b: int| 0 <= a < b < r.len() implies r[a]@ != r[b]@ by {
        let a2 = if a < j {
            a
        } else {
            a + 1
        };
        let b2 = if b < j {
            b
        } else {
            b + 1
        };
        assert(r[a] == s[a2]);
        assert(r[b] == s[b2]);
    }
}

/// Mark a player ready: add the name unless it is already there.
fn ready_insert(ready: &mut Vec<String>, p: &String)
    ensures
        ({
            let r0 = old(ready)@;
            if name_index(r0, p@) >= 0 {
                final(ready)@ == r0
            } else {
                final(ready)@ == r0.push(*p)
            }
        }),
{
    proof {
        lemma_name_index(ready@, p@);
    }
    let ghost r0 = ready@;
    let mut i: usize = 0;
    while i < ready.len()
        invariant
            i <= r0.len(),
            r0 == ready@,
            r0 == old(ready)@,
            forall|k: int| 0 <= k < i ==> (#[trigger] r0[k])@ != p@,
        decreases r0.len() - i,
    {
        let same = ready[i] == *p;
        if same {
            proof {
                lemma_name_index(r0, p@);
                let ni = name_index(r0, p@);
                if ni < 0 {
                    assert(r0[i as int]@ != p@);
                }
            }
            return ;
        }
        i = i + 1;
    }
    proof {
        lemma_name_index(r0, p@);
        let ni = name_index(r0, p@);
        if ni >= 0 {
            assert(r0[ni]@ != p@);
        }
    }
    ready.push(p.clone());
}

/// Withdraw readiness: drop the name if it is there.
fn ready_remove(ready: &mut Vec<String>, p: &String)
    ensures
        ({
            let r0 = old(ready)@;
            let ni = name_index(r0, p@);
            if ni >= 0 {
                final(ready)@ == r0.remove(ni)
            } else {
                final(ready)@ == r0
            }
        }),
{
    proof {
        lemma_name_index(ready@, p@);
    }
    let ghost r0 = ready@;
    let mut i: usize = 0;
    while i < ready.len()
        invariant
            i <= r0.len(),
            r0 == ready@,
            r0 == old(ready)@,
            forall|k: int| 0 <= k < i ==> (#[trigger] r0[k])@ != p@,
        decreases r0.len() - i,
    {
        let same = ready[i] == *p;
        if same {
            proof {
                assert(r0[i as int]@ == p@);
                lemma_name_index(r0, p@);
                let ni = name_index(r0, p@);
                if ni < 0 {
                    assert(r0[i as int]@ != p@);
                }
                if ni > i as int {
                    assert(r0[i as int]@ != p@);
                }
                if ni < i as int {
                    assert(r0[ni]@ != p@);
                }
                assert(name_index(r0, p@) == i as int);
            }
            ready.remove(i);
            return ;
        }
        i = i + 1;
    }
    proof {
        lemma_name_index(r0, p@);
        let ni = name_index(r0, p@);
        if ni >= 0 {
            assert(r0[ni]@ != p@);
        }
    }
}

impl Manager {
    /// Record a player's readiness. When the last member turns ready the
    /// game starts: everyone hears the status change, then the set opens
    /// with the upcard, the private hands, and the first bidding turn.
    #[verifier::rlimit(100)]
    pub fn player_status_change(&mut self, player_id: String, ready: bool) -> (r: (
        Result<(), LobbyError>,
        Vec<Outbound>,
    ))
        requires
            old(self).wf(),
        ensures
            status_change_post(*old(self), *final(self), player_id, ready, r.0, r.1@),
    {
        let ghost ls0 = self.lobbies@;
        let lobby_id = match self.find_players_lobby(&player_id) {
            Some(l) => l,
            None => {
                return (Err(LobbyError::WrongLobby), Vec::new());
            },
        };
        let li = match self.find_lobby(&lobby_id) {
            Some(i) => i,
            None => {
                return (Err(LobbyError::InvalidLobby), Vec::new());
            },
        };
        proof {
            lemma_key_index(ls0, lobby_id@);
        }
        let _n = self.lobbies.len();
        let (lkey, lobby) = self.lobbies.remove(li);
        let Lobby { players: seats, state } = lobby;
        let mut ready_set = match state {
            LobbyState::Playing(g) => {
                self.lobbies.insert(
                    li,
                    (lkey, Lobby { players: seats, state: LobbyState::Playing(g) }),
                );
                proof {
                    assert(self.lobbies@ =~= ls0);
                }
                return (Err(LobbyError::GameAlreadyStarted), Vec::new());
            },
            LobbyState::NotStarted(rs) => rs,
        };
        let ghost rs0 = ready_set@;
        proof {
            assert(old(self).lobbies@[li as int].1.state == LobbyState::NotStarted(ready_set));
        }
        if ready {
            ready_insert(&mut ready_set, &player_id);
            proof {
                let r0 = rs0;
                if name_index(r0, player_id@) < 0 {
                    lemma_name_index(r0, player_id@);
                    assert forall|a: int, b: int|
                        0 <= a < b < ready_set@.len() implies ready_set@[a]@
                        != ready_set@[b]@ by {
                        if b < r0.len() {
                            assert(ready_set@[a] == r0[a]);
                            assert(ready_set@[b] == r0[b]);
                        } else {
                            assert(ready_set@[a] == r0[a]);
                            assert(ready_set@[b]@ == player_id@);
                            assert(r0[a]@ != player_id@);
                        }
                    }
                }
            }
        } else {
            ready_remove(&mut ready_set, &player_id);
            proof {
                lemma_name_index(rs0, player_id@);
                let ni = name_index(rs0, player_id@);
                if ni >= 0 {
                    lemma_names_distinct_remove(rs0, ni);
                }
            }
        }
        let should_start = ready_set.len() == crate::pmap::smap_len(&seats);
        let members = Manager::lobby_members_of(&seats);
        if should_start {
            let members_for_game = copy_names(&members);
            match Game::new_default(members_for_game) {
                Err(e) => {
                    self.lobbies.insert(
                        li,
                        (lkey, Lobby { players: seats, state: LobbyState::NotStarted(ready_set) }),
                    );
                    proof {
                        assert(forall|k: int|
                            0 <= k < self.lobbies@.len() && k != li as int
                                ==> #[trigger] self.lobbies@[k] == ls0[k]);
                        assert(self.lobbies@[li as int].0 == ls0[li as int].0);
                        assert(self.lobbies@.len() == ls0.len());
                    }
                    return (Err(LobbyError::GameError(e)), Vec::new());
                },
                Ok(game) => {
                    let (decks, upcard) = game.get_decks();
                    let first = game.get_bidding_player();
                    let possible = game.get_possible_bids();
                    let ghost g = game;
                    proof {
                        g.lemma_bidding_cursor_live();
                        lemma_alive_filter(g.entries());
                        lemma_alive_filter_all(g.entries());
                        lemma_alive_filter_keys_distinct(g.entries());
                    }
                    self.lobbies.insert(
                        li,
                        (lkey, Lobby { players: seats, state: LobbyState::Playing(game) }),
                    );
                    proof {
                        assert(forall|k: int|
                            0 <= k < self.lobbies@.len() && k != li as int
                                ==> #[trigger] self.lobbies@[k] == ls0[k]);
                        assert(self.lobbies@[li as int].0 == ls0[li as int].0);
                    }
                    let mut out: Vec<Outbound> = Vec::new();
                    let ghost head = (Outbound::Broadcast {
                        to: members,
                        msg: ServerMessage::PlayerStatusChange { player_id, ready },
                    });
                    out.push(
                        Outbound::Broadcast {
                            to: members,
                            msg: ServerMessage::PlayerStatusChange { player_id, ready },
                        },
                    );
                    let ghost ds = decks@;
                    let ghost pb = possible@;
                    let ghost nx = first@;
                    let mut tail = Manager::init_set(decks, first, upcard, possible);
                    proof {
                        assert(out@ =~= seq![head]);
                    }
                    out.append(&mut tail);
                    proof {
                        let outv = out@;
                        assert(outv =~= seq![head] + outv.skip(1));
                        assert(init_msgs(outv.skip(1), ds, nx, g.upcard, pb));
                        assert forall|p: Seq<char>| #[trigger] deck_unicasts_to(outv, p) == (
                        if alive_in(g, p) {
                            1int
                        } else {
                            0int
                        }) by {
                            lemma_unicount_concat(seq![head], outv.skip(1), p);
                            lemma_unicount_all_broadcast(seq![head], p);
                            lemma_one_deck_each(outv.skip(1), ds, nx, g.upcard, pb, p);
                            if alive_in(g, p) {
                                let i = choose|i: int|
                                    0 <= i < g.entries().len() && (#[trigger] g.entries()[i]).0@
                                        == p && spec_alive(g.entries()[i].1);
                                assert(alive_filter(g.entries()) == g.entries());
                                assert(ds[i].0@ == p);
                            } else {
                                if exists|k: int|
                                    0 <= k < ds.len() && (#[trigger] ds[k]).0@ == p {
                                    let k = choose|k: int|
                                        0 <= k < ds.len() && (#[trigger] ds[k]).0@ == p;
                                    assert(alive_filter(g.entries()) == g.entries());
                                    assert(g.entries()[k].0@ == p && spec_alive(
                                        g.entries()[k].1,
                                    ));
                                }
                            }
                        }
                        assert forall|m: int| 0 <= m < outv.len() implies turn_msgs_ok(
                            #[trigger] outv[m],
                            g,
                        ) by {
                            if m == 1 {
                                assert(outv.skip(1)[0] == outv[1]);
                            } else if 2 <= m < outv.len() - 1 {
                                assert(outv.skip(1)[m - 1] == outv[m]);
                                assert(outv.skip(1)[1 + (m - 2)] == (Outbound::Unicast {
                                    to: ds[m - 2].0,
                                    msg: ServerMessage::PlayerDeck(ds[m - 2].1),
                                }));
                            } else if m == outv.len() - 1 {
                                assert(outv.skip(1)[m - 1] == outv[m]);
                                assert(g.entries()[g.current_bidder_index()].0@ == nx);
                                assert(alive_in(g, nx));
                            }
                        }
                    }
                    return (Ok(()), out);
                },
            }
        }
        self.lobbies.insert(
            li,
            (lkey, Lobby { players: seats, state: LobbyState::NotStarted(ready_set) }),
        );
        proof {
            assert(forall|k: int|
                0 <= k < self.lobbies@.len() && k != li as int ==> #[trigger] self.lobbies@[k]
                    == ls0[k]);
            assert(self.lobbies@[li as int].0 == ls0[li as int].0);
        }
        let mut out: Vec<Outbound> = Vec::new();
        out.push(
            Outbound::Broadcast {
                to: members,
                msg: ServerMessage::PlayerStatusChange { player_id, ready },
            },
        );
        (Ok(()), out)
    }

    /// The member names of a seat map, in seat order.
    fn lobby_members_of(m: &indexmap::IndexMap<String, PlayerStatus>) -> (r: Vec<String>)
        ensures
            r@.len() == smap_seq(*m).len(),
            forall|j: int| 0 <= j < r@.len() ==> #[trigger] r@[j] == smap_seq(*m)[j].0,
    {
        let es = smap_entries(m);
        let mut r: Vec<String> = Vec::new();
        let mut i: usize = 0;
        while i < es.len()
            invariant
                i <= es@.len(),
                es@ == smap_seq(*m),
                r@.len() == i,
                forall|j: int| 0 <= j < i ==> #[trigger] r@[j] == smap_seq(*m)[j].0,
            decreases es@.len() - i,
        {
            let e = &es[i];
            r.push(e.0.clone());
            i = i + 1;
        }
        r
    }
}

/// The member names of a seat list, in seat order.
pub open spec fn member_names(es: Seq<(String, PlayerStatus)>) -> Seq<String> {
    Seq::new(es.len(), |i: int| es[i].0)
}

/// Everything `bid` promises, as one named condition.
pub open spec fn bid_post(
        m0: Manager,
        m1: Manager,
        bid: usize,
        player_id: String,
        rr: Result<(), LobbyError>,
        out: Seq<Outbound>,
) -> bool {
        &&& m1.wf()
        &&& m1.players_lobby@ == m0.players_lobby@
        &&& m1.lobbies@.len() == m0.lobbies@.len()
        &&& (match rr {
                Err(LobbyError::WrongLobby) => m1.lobbies@ == m0.lobbies@
                    && out.len() == 0 && key_index(m0.players_lobby@, player_id@) < 0,
                Err(LobbyError::InvalidLobby) => m1.lobbies@ == m0.lobbies@
                    && out.len() == 0 && ({
                    let pi = key_index(m0.players_lobby@, player_id@);
                    pi >= 0 && key_index(m0.lobbies@, m0.players_lobby@[pi].1@) < 0
                }),
                Err(LobbyError::GameNotStarted) => m1.lobbies@ == m0.lobbies@
                    && out.len() == 0 && ({
                    let pi = key_index(m0.players_lobby@, player_id@);
                    let li = key_index(m0.lobbies@, m0.players_lobby@[pi].1@);
                    pi >= 0 && li >= 0 && m0.lobbies@[li].1.state is NotStarted
                }),
                Err(LobbyError::GameError(GameError::InvalidBid(e))) => m1.lobbies@ == m0.lobbies@ && out.len() == 0 && ({
                    let l = m0.players_lobby@[key_index(
                        m0.players_lobby@,
                        player_id@,
                    )].1@;
                    let li = key_index(m0.lobbies@, l);
                    &&& 0 <= li < m0.lobbies@.len()
                    &&& (m0.lobbies@[li].1.state matches LobbyState::Playing(g0) && match e {
                        BiddingError::DealingStageActive => !g0.is_bidding(),
                        BiddingError::NotYourTurn => g0.is_bidding() && player_id@
                            != g0.current_bidder_key(),
                        BiddingError::BidOutOfRange => g0.is_bidding() && player_id@
                            == g0.current_bidder_key() && !g0.bid_allowed(bid as int),
                        _ => false,
                    })
                }),
                Err(_) => false,
                Ok(_) => ({
                    let l = m0.players_lobby@[key_index(
                        m0.players_lobby@,
                        player_id@,
                    )].1@;
                    let li = key_index(m0.lobbies@, l);
                    &&& key_index(m0.players_lobby@, player_id@) >= 0
                    &&& 0 <= li < m1.lobbies@.len()
                    &&& (m0.lobbies@[li].1.state matches LobbyState::Playing(g0) && {
                        &&& g0.is_bidding()
                        &&& player_id@ == g0.current_bidder_key()
                        &&& g0.bid_allowed(bid as int)
                        // the lobby's new game is the old game with this bid
                        // recorded and the bidding lap moved one seat onward
                        &&& (m1.lobbies@[li].1.state matches LobbyState::Playing(g1) && ({
                            let s0 = g0.entries();
                            let w = g0.current_bidder_index();
                            &&& g1.entries() == s0.update(
                                w,
                                (
                                    s0[w].0,
                                    crate::player::Player {
                                        lifes: s0[w].1.lifes,
                                        deck: s0[w].1.deck,
                                        bid: Some(bid),
                                        rounds: s0[w].1.rounds,
                                    },
                                ),
                            )
                            &&& g1.bidding_iter.items@ == g0.bidding_iter.items@
                            &&& g1.bidding_iter.current_index == g0.bidding_iter.current_index + 1
                            &&& g1.round_iter == g0.round_iter
                            &&& g1.pile == g0.pile
                            &&& g1.cards_count == g0.cards_count
                            &&& g1.upcard == g0.upcard
                            &&& g1.dealing_mode == g0.dealing_mode
                        }))
                    })
                    &&& (m1.lobbies@[li].1.state matches LobbyState::Playing(g1) && {
                        &&& g1.wf()
                        &&& key_index(g1.entries(), player_id@) >= 0
                        &&& g1.entries()[key_index(g1.entries(), player_id@)].1.bid == Some(bid)
                        &&& out.len() == 2
                        &&& (out[0] matches Outbound::Broadcast { to, msg } && msg == (
                        ServerMessage::PlayerBidded { player_id, bid }) && to@.len() == smap_seq(
                            m1.lobbies@[li].1.players,
                        ).len() && (forall|k: int|
                            0 <= k < to@.len() ==> #[trigger] to@[k] == smap_seq(
                                m1.lobbies@[li].1.players,
                            )[k].0))
                        &&& (out[1] matches Outbound::Broadcast { to, msg } && (match msg {
                            ServerMessage::PlayerBiddingTurn { .. } => g1.is_bidding(),
                            ServerMessage::PlayerTurn { .. } => !g1.is_bidding(),
                            _ => false,
                        }) && to@.len() == smap_seq(m1.lobbies@[li].1.players).len() && (
                        forall|k: int|
                            0 <= k < to@.len() ==> #[trigger] to@[k] == smap_seq(
                                m1.lobbies@[li].1.players,
                            )[k].0))
                        &&& (forall|m: int|
                            0 <= m < out.len() ==> turn_msgs_ok(#[trigger] out[m], g1))
                    })
                }),
            })
    }

/// Everything `play_turn` promises, as one named condition.
pub open spec fn play_turn_post(
        m0: Manager,
        m1: Manager,
        card: Card,
        player_id: String,
        rr: Result<(), LobbyError>,
        out: Seq<Outbound>,
) -> bool {
        &&& m1.wf()
        &&& m1.players_lobby@ == m0.players_lobby@
        &&& m1.lobbies@.len() == m0.lobbies@.len()
        &&& (match rr {
                Err(LobbyError::WrongLobby) => m1.lobbies@ == m0.lobbies@
                    && out.len() == 0 && ({
                    let pi = key_index(m0.players_lobby@, player_id@);
                    let li = key_index(m0.lobbies@, m0.players_lobby@[pi].1@);
                    pi < 0 || (li >= 0 && key_index(
                        smap_seq(m0.lobbies@[li].1.players),
                        player_id@,
                    ) < 0)
                }),
                Err(LobbyError::InvalidLobby) => m1.lobbies@ == m0.lobbies@
                    && out.len() == 0 && ({
                    let pi = key_index(m0.players_lobby@, player_id@);
                    pi >= 0 && key_index(m0.lobbies@, m0.players_lobby@[pi].1@) < 0
                }),
                Err(LobbyError::GameNotStarted) => m1.lobbies@ == m0.lobbies@
                    && out.len() == 0 && ({
                    let pi = key_index(m0.players_lobby@, player_id@);
                    let li = key_index(m0.lobbies@, m0.players_lobby@[pi].1@);
                    pi >= 0 && li >= 0 && m0.lobbies@[li].1.state is NotStarted
                }),
                Err(LobbyError::GameError(GameError::InvalidTurn(e))) => m1.lobbies@
                    == m0.lobbies@ && out.len() == 0 && ({
                    let l = m0.players_lobby@[key_index(
                        m0.players_lobby@,
                        player_id@,
                    )].1@;
                    let li = key_index(m0.lobbies@, l);
                    &&& 0 <= li < m0.lobbies@.len()
                    &&& (m0.lobbies@[li].1.state matches LobbyState::Playing(g0) && match e {
                        TurnError::BiddingStageActive => g0.is_bidding(),
                        TurnError::InvalidPlayer => !g0.is_bidding() && key_index(
                            g0.entries(),
                            player_id@,
                        ) < 0,
                        TurnError::NotYourTurn { expected } => !g0.is_bidding(),
                        TurnError::NotYourCard => !g0.is_bidding() && !g0.entries()[key_index(
                            g0.entries(),
                            player_id@,
                        )].1.deck@.contains(card),
                    })
                }),
                Err(_) => false,
                Ok(_) => ({
                    let l = m0.players_lobby@[key_index(
                        m0.players_lobby@,
                        player_id@,
                    )].1@;
                    let li = key_index(m0.lobbies@, l);
                    &&& key_index(m0.players_lobby@, player_id@) >= 0
                    &&& 0 <= li < m1.lobbies@.len()
                    &&& (m0.lobbies@[li].1.state matches LobbyState::Playing(g0) && {
                        &&& g0.deal_ok((Turn { player_id, card }))
                        &&& (out[0] matches Outbound::Broadcast { to, msg } && (
                        msg matches ServerMessage::TurnPlayed { pile } && ({
                            &&& pile@.len() == g0.pile@.len() + 1
                            &&& forall|j: int|
                                0 <= j < g0.pile@.len() ==> #[trigger] pile@[j] == g0.pile@[j].1
                            &&& pile@[g0.pile@.len() as int] == (Turn { player_id, card })
                        })) && to@.len() == smap_seq(m1.lobbies@[li].1.players).len() && (
                        forall|k: int|
                            0 <= k < to@.len() ==> #[trigger] to@[k] == smap_seq(
                                m1.lobbies@[li].1.players,
                            )[k].0))
                        &&& (!g0.deal_ends_set((Turn { player_id, card })) && !g0.deal_ends_trick()
                            ==> out.len() == 2 && (out[1] matches Outbound::Broadcast { to, msg }
                            && msg matches ServerMessage::PlayerTurn { .. }))
                        &&& (!g0.deal_ends_set((Turn { player_id, card })) && g0.deal_ends_trick()
                            ==> out.len() == 3 && (out[1] matches Outbound::Broadcast { to, msg }
                            && msg matches ServerMessage::RoundEnded(..)) && (out[2] matches
                        Outbound::Broadcast { to, msg } && msg matches ServerMessage::PlayerTurn {
                            ..
                        }))
                        &&& (g0.deal_ends_set((Turn { player_id, card })) ==> out.len() >= 2 && (
                        out[1] matches Outbound::Broadcast { to, msg } && (msg matches
                        ServerMessage::SetEnded(..) || msg matches ServerMessage::GameEnded {
                            ..
                        })))
                        // a set's end is followed by exactly the set-opening
                        // sequence; the game's end closes the list
                        &&& (m1.lobbies@[li].1.state matches LobbyState::Playing(g1) && ({
                            &&& (g0.deal_ends_set((Turn { player_id, card })) && alive_count(
                                g1.entries(),
                            ) >= 2 ==> (out[1] matches Outbound::Broadcast { to, msg }
                                && msg matches ServerMessage::SetEnded(..)) && (exists|
                                dk: Seq<(String, Vec<Card>)>,
                                pb: Seq<usize>,
                            |
                                {
                                    &&& #[trigger] init_msgs(
                                        out.skip(2),
                                        dk,
                                        g1.current_bidder_key(),
                                        g1.upcard,
                                        pb,
                                    )
                                    &&& dk.len() == alive_filter(g1.entries()).len()
                                    &&& (forall|j: int|
                                        0 <= j < dk.len() ==> (#[trigger] dk[j]).0 == alive_filter(
                                            g1.entries(),
                                        )[j].0 && dk[j].1@ == alive_filter(
                                            g1.entries(),
                                        )[j].1.deck@)
                                    &&& possible_bids_ok(g1, pb)
                                }))
                            &&& (g0.deal_ends_set((Turn { player_id, card })) && alive_count(
                                g1.entries(),
                            ) <= 1 ==> out.len() == 2 && (out[1] matches Outbound::Broadcast {
                                to,
                                msg,
                            } && msg matches ServerMessage::GameEnded { .. }))
                        }))
                    })
                    &&& (m1.lobbies@[li].1.state matches LobbyState::Playing(g1) && {
                        &&& g1.wf()
                        &&& out.len() >= 2
                        &&& (out[0] matches Outbound::Broadcast { to, msg } && msg matches
                        ServerMessage::TurnPlayed { .. })
                        &&& (forall|m: int|
                            0 <= m < out.len() ==> turn_msgs_ok(#[trigger] out[m], g1))
                        &&& (forall|p: Seq<char>|
                            #[trigger] deck_unicasts_to(out, p) <= 1 && (deck_unicasts_to(out, p)
                                == 1 ==> alive_in(g1, p)))
                        &&& ((out[1] matches Outbound::Broadcast {
                            msg: ServerMessage::SetEnded(..),
                            ..
                        }) ==> forall|p: Seq<char>|
                            #[trigger] deck_unicasts_to(out, p) == (if alive_in(g1, p) {
                                1int
                            } else {
                                0int
                            }))
                    })
                }),
            })
    }

/// Everything `status_change` promises, as one named condition.
pub open spec fn status_change_post(
        m0: Manager,
        m1: Manager,
        player_id: String,
        ready: bool,
        rr: Result<(), LobbyError>,
        out: Seq<Outbound>,
) -> bool {
        &&& m1.wf()
        &&& m1.players_lobby@ == m0.players_lobby@
        &&& (match rr {
                Err(LobbyError::WrongLobby) => m1.lobbies@ == m0.lobbies@
                    && out.len() == 0 && key_index(m0.players_lobby@, player_id@) < 0,
                Err(LobbyError::InvalidLobby) => m1.lobbies@ == m0.lobbies@
                    && out.len() == 0 && ({
                    let pi = key_index(m0.players_lobby@, player_id@);
                    pi >= 0 && key_index(m0.lobbies@, m0.players_lobby@[pi].1@) < 0
                }),
                Err(LobbyError::GameAlreadyStarted) => m1.lobbies@ == m0.lobbies@
                    && out.len() == 0 && ({
                    let pi = key_index(m0.players_lobby@, player_id@);
                    let li = key_index(m0.lobbies@, m0.players_lobby@[pi].1@);
                    pi >= 0 && li >= 0 && m0.lobbies@[li].1.state is Playing
                }),
                Err(LobbyError::GameError(e)) => out.len() == 0 && ({
                    let pi = key_index(m0.players_lobby@, player_id@);
                    let li = key_index(m0.lobbies@, m0.players_lobby@[pi].1@);
                    let members = smap_seq(m0.lobbies@[li].1.players).len();
                    &&& pi >= 0
                    &&& li >= 0
                    &&& m0.lobbies@[li].1.state is NotStarted
                    &&& ((e is NotEnoughPlayers && members < 2) || (e is TooManyPlayers && members
                        > 13))
                }),
                Err(_) => false,
                Ok(_) => ({
                    &&& out.len() >= 1
                    &&& (out[0] matches Outbound::Broadcast { to, msg } && msg == (
                    ServerMessage::PlayerStatusChange { player_id, ready }))
                    &&& ({
                        let l = m0.players_lobby@[key_index(
                            m0.players_lobby@,
                            player_id@,
                        )].1@;
                        let li = key_index(m0.lobbies@, l);
                        &&& 0 <= li < m1.lobbies@.len()
                        &&& (m0.lobbies@[li].1.state matches LobbyState::NotStarted(rs0)
                            && ({
                            let ni = name_index(rs0@, player_id@);
                            let toggled = if ready {
                                if ni >= 0 {
                                    rs0@
                                } else {
                                    rs0@.push(player_id)
                                }
                            } else {
                                if ni >= 0 {
                                    rs0@.remove(ni)
                                } else {
                                    rs0@
                                }
                            };
                            &&& ((m1.lobbies@[li].1.state is Playing) <==> toggled.len()
                                == smap_seq(m0.lobbies@[li].1.players).len())
                            &&& (m1.lobbies@[li].1.state matches LobbyState::NotStarted(
                                rs1,
                            ) ==> rs1@ == toggled)
                        }))
                        &&& match m1.lobbies@[li].1.state {
                            LobbyState::NotStarted(_) => out.len() == 1,
                            LobbyState::Playing(g) => {
                                &&& g.wf()
                                &&& g.is_bidding()
                                // the game seats exactly the lobby's members,
                                // one card each
                                &&& Game::fresh(
                                    g,
                                    member_names(smap_seq(m1.lobbies@[li].1.players)),
                                    1,
                                )
                                // the status broadcast is followed by the
                                // set-opening sequence: the upcard, each new
                                // hand in private, the first bidding turn
                                &&& (exists|dk: Seq<(String, Vec<Card>)>, pb: Seq<usize>|
                                    {
                                        &&& #[trigger] init_msgs(
                                            out.skip(1),
                                            dk,
                                            g.current_bidder_key(),
                                            g.upcard,
                                            pb,
                                        )
                                        &&& dk.len() == alive_filter(g.entries()).len()
                                        &&& (forall|j: int|
                                            0 <= j < dk.len() ==> (#[trigger] dk[j]).0
                                                == alive_filter(g.entries())[j].0 && dk[j].1@
                                                == alive_filter(g.entries())[j].1.deck@)
                                        &&& possible_bids_ok(g, pb)
                                    })
                                &&& (forall|m: int|
                                    0 <= m < out.len() ==> turn_msgs_ok(#[trigger] out[m], g))
                                &&& (forall|p: Seq<char>|
                                    #[trigger] deck_unicasts_to(out, p) == (if alive_in(g, p) {
                                        1int
                                    } else {
                                        0int
                                    }))
                            },
                        }
                    })
                }),
            })
    }

/// Everything `reconnect` promises, as one named condition.
pub open spec fn reconnect_post(
        m: Manager,
        player_id: String,
        rr: Result<(), LobbyError>,
        out: Seq<Outbound>,
) -> bool {
        ({
                let pi = key_index(m.players_lobby@, player_id@);
                let li = key_index(m.lobbies@, m.players_lobby@[pi].1@);
                match rr {
                    Err(LobbyError::WrongLobby) => out.len() == 0 && (pi < 0 || (li >= 0 && (
                    m.lobbies@[li].1.state matches LobbyState::Playing(g) && key_index(
                        g.entries(),
                        player_id@,
                    ) < 0))),
                    Err(LobbyError::InvalidLobby) => out.len() == 0 && pi >= 0 && li < 0,
                    Err(LobbyError::GameNotStarted) => out.len() == 0 && pi >= 0 && li >= 0 && (
                    m.lobbies@[li].1.state is NotStarted || (m.lobbies@[li].1.state matches
                    LobbyState::Playing(g) && !g.has_current_player())),
                    Err(_) => false,
                    Ok(_) => pi >= 0 && li >= 0 && (m.lobbies@[li].1.state matches
                    LobbyState::Playing(g) && ({
                        let gi = key_index(g.entries(), player_id@);
                        &&& gi >= 0
                        &&& g.has_current_player()
                        &&& out.len() == 1
                        &&& (out[0] matches Outbound::Unicast { to, msg } && to@ == player_id@
                            && (msg matches ServerMessage::Reconnect(info) && ({
                            &&& info.deck@ == g.entries()[gi].1.deck@
                            &&& info.upcard == g.upcard
                            &&& info.current_player@ == (if g.is_bidding() {
                                g.current_bidder_key()
                            } else {
                                g.current_dealer_key()
                            })
                            &&& match info.stage {
                                crate::messages::GameStageDto::Bidding { possible_bids } =>
                                    g.is_bidding() && possible_bids_ok(g, possible_bids@),
                                crate::messages::GameStageDto::Dealing => !g.is_bidding(),
                            }
                        })))
                    })),
                }
            })
    }

impl Manager {
    /// Place a bid in the caller's game. Everyone in the lobby hears the
    /// bid, then either the next bidding turn with the selectable bids, or —
    /// when the lap is done — whose card play is awaited.
    pub fn bid(&mut self, bid: usize, player_id: String) -> (r: (
        Result<(), LobbyError>,
        Vec<Outbound>,
    ))
        requires
            old(self).wf(),
        ensures
            bid_post(*old(self), *final(self), bid, player_id, r.0, r.1@),
    {
        let ghost ls0 = self.lobbies@;
        let lobby_id = match self.find_players_lobby(&player_id) {
            Some(l) => l,
            None => {
                return (Err(LobbyError::WrongLobby), Vec::new());
            },
        };
        let li = match self.find_lobby(&lobby_id) {
            Some(i) => i,
            None => {
                return (Err(LobbyError::InvalidLobby), Vec::new());
            },
        };
        proof {
            lemma_key_index(ls0, lobby_id@);
        }
        let _n = self.lobbies.len();
        let (lkey, lobby) = self.lobbies.remove(li);
        let Lobby { players: seats, state } = lobby;
        let mut game = match state {
            LobbyState::NotStarted(rs) => {
                self.lobbies.insert(
                    li,
                    (lkey, Lobby { players: seats, state: LobbyState::NotStarted(rs) }),
                );
                proof {
                    assert(self.lobbies@ =~= ls0);
                }
                return (Err(LobbyError::GameNotStarted), Vec::new());
            },
            LobbyState::Playing(g) => g,
        };
        let ghost g0 = game;
        let outcome = game.bid(&player_id, bid);
        let ghost g1 = game;
        let members = Manager::lobby_members_of(&seats);
        self.lobbies.insert(li, (lkey, Lobby { players: seats, state: LobbyState::Playing(game) }));
        proof {
            assert(forall|k: int|
                0 <= k < self.lobbies@.len() && k != li as int ==> #[trigger] self.lobbies@[k]
                    == ls0[k]);
            assert(self.lobbies@[li as int].0 == ls0[li as int].0);
        }
        match outcome {
            Err(e) => {
                proof {
                    assert(self.lobbies@ =~= ls0);
                }
                return (Err(LobbyError::GameError(GameError::InvalidBid(e))), Vec::new());
            },
            Ok(state2) => {
                proof {
                    g0.lemma_bidding_cursor_live();
                    lemma_new_bid_recorded(g1, g0, player_id@, bid);
                }
                let members2 = copy_names(&members);
                let mut out: Vec<Outbound> = Vec::new();
                out.push(
                    Outbound::Broadcast {
                        to: members,
                        msg: ServerMessage::PlayerBidded { player_id, bid },
                    },
                );
                match state2 {
                    BiddingState::Active { next, possible_bids } => {
                        proof {
                            g1.lemma_bidding_cursor_live();
                            assert(alive_in(g1, next@)) by {
                                assert(g1.entries()[g1.current_bidder_index()].0@ == next@);
                            }
                        }
                        out.push(
                            Outbound::Broadcast {
                                to: members2,
                                msg: ServerMessage::PlayerBiddingTurn {
                                    player_id: next,
                                    possible_bids,
                                },
                            },
                        );
                    },
                    BiddingState::Ended { next } => {
                        proof {
                            assert(alive_in(g1, next@)) by {
                                assert(g1.entries()[g1.current_dealer_index()].0@ == next@);
                                assert(spec_alive(
                                    g1.entries()[g1.round_iter.items@[g1.round_iter.current_index as int] as int].1,
                                ));
                            }
                        }
                        out.push(
                            Outbound::Broadcast {
                                to: members2,
                                msg: ServerMessage::PlayerTurn { player_id: next },
                            },
                        );
                    },
                }
                (Ok(()), out)
            },
        }
    }

}

/// After a successful bid the bidder's seat carries it.

proof fn lemma_new_bid_recorded(g1: Game, g0: Game, pid: Seq<char>, bid: usize)
        requires
            g0.wf(),
            g0.is_bidding(),
            g0.bidding_iter.current_index < g0.bidding_iter.items@.len(),
            0 <= g0.current_bidder_index() < g0.entries().len(),
            pid == g0.current_bidder_key(),
            g1.entries() == g0.entries().update(
                g0.current_bidder_index(),
                (
                    g0.entries()[g0.current_bidder_index()].0,
                    crate::player::Player {
                        lifes: g0.entries()[g0.current_bidder_index()].1.lifes,
                        deck: g0.entries()[g0.current_bidder_index()].1.deck,
                        bid: Some(bid),
                        rounds: g0.entries()[g0.current_bidder_index()].1.rounds,
                    },
                ),
            ),
        ensures
            key_index(g1.entries(), pid) >= 0,
            g1.entries()[key_index(g1.entries(), pid)].1.bid == Some(bid),
    {
        let s0 = g0.entries();
        let s1 = g1.entries();
        let w = g0.current_bidder_index();
        assert(forall|i: int| 0 <= i < s1.len() ==> (#[trigger] s1[i]).0 == s0[i].0);
        assert forall|a: int, b: int| 0 <= a < b < s1.len() implies s1[a].0@ != s1[b].0@ by {
            assert(s1[a].0 == s0[a].0);
            assert(s1[b].0 == s0[b].0);
        }
        assert(s1[w].0@ == pid);
        crate::game::lemma_key_index_of(s1, w);
        assert(key_index(s1, pid) == w);
}

impl Manager {
    /// Play a card in the caller's game. Everyone in the lobby sees the
    /// pile; then, depending on how the game went on, the next player's
    /// turn, the finished trick, the new set's opening, or the end of the
    /// game.
    #[verifier::rlimit(100)]
    pub fn play_turn(&mut self, card: Card, player_id: String) -> (r: (
        Result<(), LobbyError>,
        Vec<Outbound>,
    ))
        requires
            old(self).wf(),
        ensures
            play_turn_post(*old(self), *final(self), card, player_id, r.0, r.1@),
    {
        let ghost ls0 = self.lobbies@;
        let lobby_id = match self.find_players_lobby(&player_id) {
            Some(l) => l,
            None => {
                return (Err(LobbyError::WrongLobby), Vec::new());
            },
        };
        let li = match self.find_lobby(&lobby_id) {
            Some(i) => i,
            None => {
                return (Err(LobbyError::InvalidLobby), Vec::new());
            },
        };
        proof {
            lemma_key_index(ls0, lobby_id@);
        }
        let _n = self.lobbies.len();
        let (lkey, lobby) = self.lobbies.remove(li);
        // the caller must hold a seat in this lobby
        let member = crate::pmap::smap_get(&lobby.players, &player_id);
        if member.is_none() {
            self.lobbies.insert(li, (lkey, lobby));
            proof {
                assert(self.lobbies@ =~= ls0);
            }
            return (Err(LobbyError::WrongLobby), Vec::new());
        }
        let Lobby { players: seats, state } = lobby;
        let mut game = match state {
            LobbyState::NotStarted(rs) => {
                self.lobbies.insert(
                    li,
                    (lkey, Lobby { players: seats, state: LobbyState::NotStarted(rs) }),
                );
                proof {
                    assert(self.lobbies@ =~= ls0);
                }
                return (Err(LobbyError::GameNotStarted), Vec::new());
            },
            LobbyState::Playing(g) => g,
        };
        let turn = Turn { player_id: player_id.clone(), card };
        let ghost g0 = game;
        let outcome = game.deal(turn);
        let ghost g1 = game;
        let members = Manager::lobby_members_of(&seats);
        self.lobbies.insert(li, (lkey, Lobby { players: seats, state: LobbyState::Playing(game) }));
        proof {
            assert(forall|k: int|
                0 <= k < self.lobbies@.len() && k != li as int ==> #[trigger] self.lobbies@[k]
                    == ls0[k]);
            assert(self.lobbies@[li as int].0 == ls0[li as int].0);
        }
        let ds = match outcome {
            Err(e) => {
                proof {
                    assert(self.lobbies@ =~= ls0);
                }
                return (Err(LobbyError::GameError(GameError::InvalidTurn(e))), Vec::new());
            },
            Ok(ds) => ds,
        };
        let members2 = copy_names(&members);
        let mut out: Vec<Outbound> = Vec::new();
        out.push(Outbound::Broadcast { to: members, msg: ServerMessage::TurnPlayed { pile: ds.pile } });
        let ghost head = out@[0];
        match ds.event {
            GameEvent::SetEnded { lifes, upcard, decks, next, possible } => {
                let ghost dsq = decks@;
                let ghost nx = next@;
                let ghost pb = possible@;
                proof {
                    g1.lemma_bidding_cursor_live();
                    lemma_alive_filter(g1.entries());
                    lemma_alive_filter_from(g1.entries());
                    lemma_alive_filter_keys_distinct(g1.entries());
                }
                out.push(
                    Outbound::Broadcast { to: members2, msg: ServerMessage::SetEnded(lifes) },
                );
                let ghost head2 = out@[1];
                let mut tail = Manager::init_set(decks, next, upcard, possible);
                proof {
                    assert(out@ =~= seq![head, head2]);
                }
                out.append(&mut tail);
                proof {
                    let outv = out@;
                    assert(outv =~= seq![head, head2] + outv.skip(2));
                    assert(init_msgs(outv.skip(2), dsq, nx, g1.upcard, pb));
                    assert forall|a: int, b: int| 0 <= a < b < dsq.len() implies dsq[a].0@
                        != dsq[b].0@ by {
                        assert(dsq[a].0 == alive_filter(g1.entries())[a].0);
                        assert(dsq[b].0 == alive_filter(g1.entries())[b].0);
                    }
                    assert forall|p: Seq<char>|
                        #[trigger] deck_unicasts_to(outv, p) == (if alive_in(g1, p) {
                            1int
                        } else {
                            0int
                        }) by {
                        lemma_unicount_concat(seq![head, head2], outv.skip(2), p);
                        lemma_unicount_all_broadcast(seq![head, head2], p);
                        lemma_one_deck_each(outv.skip(2), dsq, nx, g1.upcard, pb, p);
                        if deck_unicasts_to(outv, p) == 1 {
                            let k = choose|k: int|
                                0 <= k < dsq.len() && (#[trigger] dsq[k]).0@ == p;
                            assert(dsq[k].0 == alive_filter(g1.entries())[k].0);
                            assert(spec_alive(alive_filter(g1.entries())[k].1));
                            let i = choose|i: int|
                                0 <= i < g1.entries().len() && g1.entries()[i] == (
                                #[trigger] alive_filter(g1.entries())[k]);
                            assert(g1.entries()[i].0@ == p && spec_alive(g1.entries()[i].1));
                        }
                        if alive_in(g1, p) {
                            let i = choose|i: int|
                                0 <= i < g1.entries().len() && (#[trigger] g1.entries()[i]).0@ == p
                                    && spec_alive(g1.entries()[i].1);
                            assert(alive_filter(g1.entries()).contains(g1.entries()[i]));
                            let k = choose|k: int|
                                0 <= k < alive_filter(g1.entries()).len() && alive_filter(
                                    g1.entries(),
                                )[k] == g1.entries()[i];
                            assert(dsq[k].0 == alive_filter(g1.entries())[k].0);
                            assert(dsq[k].0@ == p);
                        }
                    }
                    assert forall|m: int| 0 <= m < outv.len() implies turn_msgs_ok(
                        #[trigger] outv[m],
                        g1,
                    ) by {
                        if m == 2 {
                            assert(outv.skip(2)[0] == outv[2]);
                        } else if 3 <= m < outv.len() - 1 {
                            assert(outv.skip(2)[m - 2] == outv[m]);
                            assert(outv.skip(2)[1 + (m - 3)] == (Outbound::Unicast {
                                to: dsq[m - 3].0,
                                msg: ServerMessage::PlayerDeck(dsq[m - 3].1),
                            }));
                        } else if m == outv.len() - 1 {
                            assert(outv.skip(2)[m - 2] == outv[m]);
                            assert(g1.entries()[g1.current_bidder_index()].0@ == nx);
                            assert(alive_in(g1, nx));
                        }
                    }
                }
                (Ok(()), out)
            },
            GameEvent::RoundEnded { next, rounds } => {
                proof {
                    assert(alive_in(g1, next@)) by {
                        let i = choose|i: int|
                            0 <= i < g1.entries().len() && (#[trigger] g1.entries()[i]).0@ == next@
                                && spec_alive(g1.entries()[i].1);
                    }
                }
                out.push(
                    Outbound::Broadcast { to: members2, msg: ServerMessage::RoundEnded(rounds) },
                );
                let members3 = match &out[1] {
                    Outbound::Broadcast { to, msg } => copy_names(to),
                    Outbound::Unicast { .. } => vstd::pervasive::unreached(),
                };
                out.push(
                    Outbound::Broadcast { to: members3, msg: ServerMessage::PlayerTurn { player_id: next } },
                );
                proof {
                    assert forall|p: Seq<char>| #[trigger] deck_unicasts_to(out@, p) <= 1 && (
                    deck_unicasts_to(out@, p) == 1 ==> alive_in(g1, p)) by {
                        lemma_unicount_all_broadcast(out@, p);
                    }
                }
                (Ok(()), out)
            },
            GameEvent::TurnPlayed { next } => {
                proof {
                    assert(alive_in(g1, next@)) by {
                        assert(g1.entries()[g1.current_dealer_index()].0@ == next@);
                        assert(spec_alive(
                            g1.entries()[g1.round_iter.items@[g1.round_iter.current_index as int] as int].1,
                        ));
                    }
                }
                out.push(
                    Outbound::Broadcast { to: members2, msg: ServerMessage::PlayerTurn { player_id: next } },
                );
                proof {
                    assert forall|p: Seq<char>| #[trigger] deck_unicasts_to(out@, p) <= 1 && (
                    deck_unicasts_to(out@, p) == 1 ==> alive_in(g1, p)) by {
                        lemma_unicount_all_broadcast(out@, p);
                    }
                }
                (Ok(()), out)
            },
            GameEvent::Ended { winner, lifes } => {
                out.push(
                    Outbound::Broadcast { to: members2, msg: ServerMessage::GameEnded { winner, lifes } },
                );
                proof {
                    assert forall|p: Seq<char>| #[trigger] deck_unicasts_to(out@, p) <= 1 && (
                    deck_unicasts_to(out@, p) == 1 ==> alive_in(g1, p)) by {
                        lemma_unicount_all_broadcast(out@, p);
                    }
                }
                (Ok(()), out)
            },
        }
    }

    /// Send a reconnecting player their private game snapshot.
    pub fn reconnect(&self, player_id: String) -> (r: (Result<(), LobbyError>, Vec<Outbound>))
        requires
            self.wf(),
        ensures
            reconnect_post(*self, player_id, r.0, r.1@),
    {
        let lobby_id = match self.find_players_lobby(&player_id) {
            Some(l) => l,
            None => {
                return (Err(LobbyError::WrongLobby), Vec::new());
            },
        };
        let li = match self.find_lobby(&lobby_id) {
            Some(i) => i,
            None => {
                return (Err(LobbyError::InvalidLobby), Vec::new());
            },
        };
        proof {
            lemma_key_index(self.lobbies@, lobby_id@);
        }
        let _n = self.lobbies.len();
        let lobby = &self.lobbies[li].1;
        let game = match &lobby.state {
            LobbyState::NotStarted(_) => {
                return (Err(LobbyError::GameNotStarted), Vec::new());
            },
            LobbyState::Playing(g) => g,
        };
        // the snapshot needs a seat and an awaited player
        let seated = crate::pmap::pmap_get(&game.players, &player_id);
        if seated.is_none() {
            return (Err(LobbyError::WrongLobby), Vec::new());
        }
        let has_current = game.stage_is_bidding() || game.round_iter.peek().is_some();
        if !has_current {
            // the game is over for everyone: there is no state to restore
            return (Err(LobbyError::GameNotStarted), Vec::new());
        }
        let info = game.get_game_info(player_id.as_str());
        let mut out: Vec<Outbound> = Vec::new();
        out.push(Outbound::Unicast { to: player_id, msg: ServerMessage::Reconnect(info) });
        (Ok(()), out)
    }

    /// Route one in-game client message to the command it asks for.
    pub fn handle_game_msg(&mut self, msg: ClientGameMessage, player_id: String) -> (r: (
        Result<(), LobbyError>,
        Vec<Outbound>,
    ))
        requires
            old(self).wf(),
        ensures
            final(self).wf(),
            match msg {
                ClientGameMessage::PlayTurn { card } => play_turn_post(
                    *old(self),
                    *final(self),
                    card,
                    player_id,
                    r.0,
                    r.1@,
                ),
                ClientGameMessage::PutBid { bid } => bid_post(
                    *old(self),
                    *final(self),
                    bid,
                    player_id,
                    r.0,
                    r.1@,
                ),
                ClientGameMessage::PlayerStatusChange { ready } => status_change_post(
                    *old(self),
                    *final(self),
                    player_id,
                    ready,
                    r.0,
                    r.1@,
                ),
                ClientGameMessage::Reconnect => *final(self) == *old(self) && reconnect_post(
                    *old(self),
                    player_id,
                    r.0,
                    r.1@,
                ),
            },
    {
        match msg {
            ClientGameMessage::PlayTurn { card } => self.play_turn(card, player_id),
            ClientGameMessage::PutBid { bid } => self.bid(bid, player_id),
            ClientGameMessage::PlayerStatusChange { ready } => self.player_status_change(
                player_id,
                ready,
            ),
            ClientGameMessage::Reconnect => self.reconnect(player_id),
        }
    }
}

/// The lobbies still open for joining, in registry order.
pub open spec fn not_started_filter(ls: Seq<(String, Lobby)>) -> Seq<(String, Lobby)>
    decreases ls.len(),
{
    if ls.len() == 0 {
        Seq::empty()
    } else if ls.last().1.state is NotStarted {
        not_started_filter(ls.drop_last()).push(ls.last())
    } else {
        not_started_filter(ls.drop_last())
    }
}

} // verus!
