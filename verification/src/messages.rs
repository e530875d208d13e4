use vstd::prelude::*;
use crate::cards::Card;
use crate::player::Turn;

verus! {

/// Identity attached to a connection; the anonymous kind is keyed by its id,
/// the Google kind by its e-mail address.
#[derive(Debug, Clone, PartialEq, Eq)]
pub enum UserClaims {
    Anonymous(AnonymousUserClaims),
    Google(GoogleUserClaims),
}

#[derive(Debug, Clone, PartialEq, Eq)]
pub struct AnonymousUserClaims {
    pub id: String,
    pub picture: String,
    pub name: String,
}

#[derive(Debug, Clone, PartialEq, Eq)]
pub struct GoogleUserClaims {
    pub email: String,
    pub name: String,
    pub picture: String,
}

/// The player id that a set of claims stands for, in spec form.
pub open spec fn spec_claims_id(c: UserClaims) -> Seq<char> {
    match c {
        UserClaims::Anonymous(a) => a.id@,
        UserClaims::Google(g) => g.email@,
    }
}

impl UserClaims {
    /// The player id this identity acts under: the anonymous id, or the
    /// Google account's e-mail.
    pub fn id(&self) -> (r: String)
        ensures
            r@ == spec_claims_id(*self),
    {
        match self {
            UserClaims::Anonymous(a) => a.id.clone(),
            UserClaims::Google(g) => g.email.clone(),
        }
    }
}

/// An equal copy of a set of claims.
pub fn copy_claims(c: &UserClaims) -> (r: UserClaims)
    ensures
        r == *c,
{
    match c {
        UserClaims::Anonymous(a) => UserClaims::Anonymous(
            AnonymousUserClaims {
                id: a.id.clone(),
                picture: a.picture.clone(),
                name: a.name.clone(),
            },
        ),
        UserClaims::Google(g) => UserClaims::Google(
            GoogleUserClaims {
                email: g.email.clone(),
                name: g.name.clone(),
                picture: g.picture.clone(),
            },
        ),
    }
}

#[derive(Debug, Clone, PartialEq, Eq)]
pub struct ProfileParams {
    pub nickname: String,
    pub picture: String,
}

#[derive(Debug, Clone, PartialEq, Eq)]
pub struct TokenResponse {
    pub token: String,
}

#[derive(Debug, Clone, PartialEq, Eq)]
pub struct CreateLobbyResponse {
    pub lobby_id: String,
}

#[derive(Debug, Clone, PartialEq, Eq)]
pub struct GetLobbyDto {
    pub id: String,
    pub player_count: usize,
}

#[derive(Debug, Clone, PartialEq, Eq)]
pub struct JoinLobbyDto {
    pub id: String,
    pub players: Vec<PlayerStatus>,
    pub should_reconnect: bool,
}

/// A lobby member: their identity and whether they declared themselves ready.
#[derive(Debug, Clone, PartialEq, Eq)]
pub struct PlayerStatus {
    pub ready: bool,
    pub player: UserClaims,
}

impl PlayerStatus {
    pub fn new(claims: UserClaims) -> (s: PlayerStatus)
        ensures
            s.ready == false,
            s.player == claims,
    {
        PlayerStatus { ready: false, player: claims }
    }
}

/// An equal copy of a member's status.
pub fn copy_status(s: &PlayerStatus) -> (r: PlayerStatus)
    ensures
        r == *s,
{
    PlayerStatus { ready: s.ready, player: copy_claims(&s.player) }
}

/// Everything a client may send after the transport hands the text over.
#[derive(Debug, Clone, PartialEq, Eq)]
pub enum ClientMessage {
    Game(ClientGameMessage),
    Auth { token: String },
}

#[derive(Debug, Clone, Copy, PartialEq, Eq)]
pub enum ClientGameMessage {
    PlayTurn { card: Card },
    PutBid { bid: usize },
    PlayerStatusChange { ready: bool },
    Reconnect,
}

/// Everything the server may send. Per-player maps are carried as pairs in
/// seat order.
#[derive(Debug, Clone, PartialEq, Eq)]
pub enum ServerMessage {
    PlayerTurn { player_id: String },
    TurnPlayed { pile: Vec<Turn> },
    PlayerBidded { player_id: String, bid: usize },
    PlayerBiddingTurn { player_id: String, possible_bids: Vec<usize> },
    PlayerStatusChange { player_id: String, ready: bool },
    RoundEnded(Vec<(String, usize)>),
    PlayerDeck(Vec<Card>),
    SetStart { upcard: Card },
    SetEnded(Vec<(String, usize)>),
    GameEnded { winner: Option<String>, lifes: Vec<(String, usize)> },
    PlayerJoined(UserClaims),
    Reconnect(GameInfoDto),
    Error { msg: String },
}

/// Snapshot handed to a reconnecting client.
#[derive(Debug, Clone, PartialEq, Eq)]
pub struct GameInfoDto {
    pub info: Vec<PlayerInfoDto>,
    pub deck: Vec<Card>,
    pub upcard: Card,
    pub current_player: String,
    pub stage: GameStageDto,
}

#[derive(Debug, Clone, PartialEq, Eq)]
pub enum GameStageDto {
    Bidding { possible_bids: Vec<usize> },
    Dealing,
}

#[derive(Debug, Clone, PartialEq, Eq)]
pub struct PlayerInfoDto {
    pub id: String,
    pub lifes: usize,
    pub rounds: usize,
    pub bid: Option<usize>,
}

#[derive(Debug, Clone, PartialEq, Eq)]
pub enum GameError {
    NotEnoughPlayers,
    TooManyPlayers,
    InvalidTurn(TurnError),
    InvalidBid(BiddingError),
}

#[derive(Debug, Clone, PartialEq, Eq)]
pub enum TurnError {
    BiddingStageActive,
    NotYourTurn { expected: Option<String> },
    NotYourCard,
    InvalidPlayer,
}

#[derive(Debug, Clone, PartialEq, Eq)]
pub enum BiddingError {
    InvalidPlayer,
    AlreadyBidded,
    DealingStageActive,
    NotYourTurn,
    BidOutOfRange,
}

#[derive(Debug, Clone, PartialEq, Eq)]
pub enum LobbyError {
    InvalidLobby,
    GameAlreadyStarted,
    GameNotStarted,
    WrongLobby,
    GameError(GameError),
}

/// Everything that can end a connection or fail a command at the socket edge.
#[derive(Debug, Clone, PartialEq, Eq)]
pub enum ManagerError {
    PlayerDisconnected(String),
    Turn(TurnError),
    Bid(BiddingError),
    InvalidWebsocketMessageType,
    UnexpectedJsonMessage(String),
    UnexpectedValidMessage(String),
    Database(String),
    Unauthorized(String),
    Lobby(LobbyError),
}

impl ManagerError {
    /// The close code sent with the final frame for this error.
    pub fn close_code(&self) -> (code: u16)
        ensures
            code == (match *self {
                ManagerError::PlayerDisconnected(_) => 1001int,
                ManagerError::InvalidWebsocketMessageType => 1003int,
                ManagerError::Lobby(_) => 1008int,
                ManagerError::Turn(_) => 1008int,
                ManagerError::Bid(_) => 1008int,
                ManagerError::UnexpectedJsonMessage(_) => 1008int,
                ManagerError::UnexpectedValidMessage(_) => 1008int,
                ManagerError::Database(_) => 1011int,
                ManagerError::Unauthorized(_) => 3000int,
            }),
    {
        match self {
            ManagerError::PlayerDisconnected(_) => 1001,
            ManagerError::InvalidWebsocketMessageType => 1003,
            ManagerError::Lobby(_) => 1008,
            ManagerError::Turn(_) => 1008,
            ManagerError::Bid(_) => 1008,
            ManagerError::UnexpectedJsonMessage(_) => 1008,
            ManagerError::UnexpectedValidMessage(_) => 1008,
            ManagerError::Database(_) => 1011,
            ManagerError::Unauthorized(_) => 3000,
        }
    }
}

/// HTTP status for a lobby-level failure: 404 for an unknown lobby, 400 for
/// the rest.
pub fn lobby_error_status(e: &LobbyError) -> (code: u16)
    ensures
        code == (match *e {
            LobbyError::InvalidLobby => 404int,
            _ => 400int,
        }),
{
    match e {
        LobbyError::InvalidLobby => 404,
        LobbyError::GameAlreadyStarted => 400,
        LobbyError::GameNotStarted => 400,
        LobbyError::WrongLobby => 400,
        LobbyError::GameError(_) => 400,
    }
}

} // verus!
