//! Plain data types of the election service and the shape of a tabulation
//! result.

use vstd::prelude::*;
use crate::api_types::ApiError;

verus! {

pub type CandidateId = String;

pub type VotingId = i32;

pub type TokenId = i32;

pub type Alias = Option<String>;

/// The outcome for one candidate in one round. `vote_count` is in
/// fixed-point units (see `tally::VOTE_UNIT`).
#[derive(Debug, Clone, PartialEq, Eq)]
pub struct CandidateResultData {
    pub name: CandidateId,
    pub vote_count: u64,
    pub is_draw: bool,
}

/// A candidate that was still contesting at the end of a round.
#[derive(Debug, Clone, PartialEq, Eq)]
pub struct PassingCandidateResult {
    pub data: CandidateResultData,
    pub is_selected: bool,
}

/// One round of a tabulation.
#[derive(Debug, Clone, PartialEq, Eq)]
pub struct VotingRoundResult {
    pub round: i32,
    pub candidate_results: Vec<PassingCandidateResult>,
    pub dropped_candidate: Option<CandidateResultData>,
}

/// Every round of a tabulation and the winners in the order they were
/// elected.
#[derive(Debug, Clone, PartialEq, Eq)]
pub struct VotingResult {
    pub round_results: Vec<VotingRoundResult>,
    pub winners: Vec<CandidateId>,
}

/// Who is making a request.
#[derive(Debug, PartialEq, Eq)]
pub enum LoginState {
    NotLoggedIn,
    Voter { token: String, alias: String },
    Admin,
}

impl Clone for LoginState {
    fn clone(&self) -> (r: Self)
        ensures
            r == *self,
    {
        match self {
            LoginState::NotLoggedIn => LoginState::NotLoggedIn,
            LoginState::Voter { token, alias } => LoginState::Voter {
                token: token.clone(),
                alias: alias.clone(),
            },
            LoginState::Admin => LoginState::Admin,
        }
    }
}

/// The state of a voting, without the result of a closed one.
#[derive(Debug, Clone, Copy, PartialEq, Eq, Structural)]
pub enum VotingStateWithoutResults {
    Draft,
    Open,
    Closed,
}

/// The state of a voter token.
#[derive(Debug, Clone, Copy, PartialEq, Eq, Structural)]
pub enum TokenState {
    Unactivated,
    Activated,
    Voided,
}

/// The state of a voting; a closed one carries its result.
#[derive(Debug, Clone)]
pub enum VotingState {
    Draft,
    Open,
    Closed(VotingResult),
}

/// The state of `v` with the result left out.
pub open spec fn state_without_results(v: VotingState) -> VotingStateWithoutResults {
    match v {
        VotingState::Draft => VotingStateWithoutResults::Draft,
        VotingState::Open => VotingStateWithoutResults::Open,
        VotingState::Closed(_) => VotingStateWithoutResults::Closed,
    }
}

impl From<VotingState> for VotingStateWithoutResults {
    fn from(value: VotingState) -> (r: Self) {
        match value {
            VotingState::Draft => VotingStateWithoutResults::Draft,
            VotingState::Open => VotingStateWithoutResults::Open,
            VotingState::Closed(_) => VotingStateWithoutResults::Closed,
        }
    }
}

impl vstd::std_specs::convert::FromSpecImpl<VotingState> for VotingStateWithoutResults {
    open spec fn obeys_from_spec() -> bool {
        true
    }

    open spec fn from_spec(v: VotingState) -> VotingStateWithoutResults {
        state_without_results(v)
    }
}

impl VotingState {
    /// The voting state for `value`; a closed voting gets an empty result.
    pub fn from_state(value: VotingStateWithoutResults) -> (r: VotingState)
        ensures
            state_without_results(r) == value,
            r matches VotingState::Closed(res) ==> res.round_results@.len() == 0
                && res.winners@.len() == 0,
    {
        match value {
            VotingStateWithoutResults::Draft => VotingState::Draft,
            VotingStateWithoutResults::Open => VotingState::Open,
            VotingStateWithoutResults::Closed => VotingState::Closed(
                VotingResult { round_results: Vec::new(), winners: Vec::new() },
            ),
        }
    }
}

impl PartialEq<VotingStateWithoutResults> for VotingState {
    fn eq(&self, other: &VotingStateWithoutResults) -> (r: bool) {
        match (self, other) {
            (VotingState::Draft, VotingStateWithoutResults::Draft) => true,
            (VotingState::Open, VotingStateWithoutResults::Open) => true,
            (VotingState::Closed(_), VotingStateWithoutResults::Closed) => true,
            _ => false,
        }
    }
}

impl vstd::std_specs::cmp::PartialEqSpecImpl<VotingStateWithoutResults> for VotingState {
    open spec fn obeys_eq_spec() -> bool {
        true
    }

    open spec fn eq_spec(&self, other: &VotingStateWithoutResults) -> bool {
        state_without_results(*self) == *other
    }
}

/// A voting. `created_at` is the creation time in seconds since the Unix
/// epoch (UTC).
#[derive(Debug, Clone)]
pub struct Voting {
    pub id: VotingId,
    pub name: String,
    pub description: String,
    pub state: VotingState,
    pub created_at: i64,
    pub hide_vote_counts: bool,
    pub number_of_winners: i32,
    pub candidates: Vec<CandidateId>,
}

/// A voting as shown to a voter, with whether that voter has voted in it.
#[derive(Debug, Clone)]
pub struct VotingForVoterTemplate {
    pub id: VotingId,
    pub name: String,
    pub description: String,
    pub state: VotingState,
    pub created_at: i64,
    pub hide_vote_counts: bool,
    pub candidates: Vec<CandidateId>,
    pub number_of_winners: i32,
    pub you_have_voted: bool,
}

pub open spec fn voting_of(value: VotingForVoterTemplate) -> Voting {
    Voting {
        id: value.id,
        name: value.name,
        description: value.description,
        state: value.state,
        created_at: value.created_at,
        hide_vote_counts: value.hide_vote_counts,
        number_of_winners: value.number_of_winners,
        candidates: value.candidates,
    }
}

impl From<VotingForVoterTemplate> for Voting {
    fn from(value: VotingForVoterTemplate) -> (r: Self) {
        Voting {
            id: value.id,
            name: value.name,
            description: value.description,
            state: value.state,
            created_at: value.created_at,
            hide_vote_counts: value.hide_vote_counts,
            number_of_winners: value.number_of_winners,
            candidates: value.candidates,
        }
    }
}

impl vstd::std_specs::convert::FromSpecImpl<VotingForVoterTemplate> for Voting {
    open spec fn obeys_from_spec() -> bool {
        true
    }

    open spec fn from_spec(v: VotingForVoterTemplate) -> Voting {
        voting_of(v)
    }
}

/// Voting `v` already has every value that update `u` sets.
pub open spec fn agrees_with(v: Voting, u: VotingUpdate) -> bool {
    &&& (u.name matches Some(n) ==> v.name@ == n@)
    &&& (u.description matches Some(d) ==> v.description@ == d@)
    &&& (u.state matches Some(s) ==> state_without_results(v.state) == s)
    &&& (u.hide_vote_counts matches Some(h) ==> v.hide_vote_counts == h)
    &&& (u.number_of_winners matches Some(w) ==> v.number_of_winners == w)
    &&& (u.candidates matches Some(c) ==> same_names(v.candidates@, c@))
}

/// Two lists of names that are equal name by name.
pub open spec fn same_names(a: Seq<String>, b: Seq<String>) -> bool {
    &&& a.len() == b.len()
    &&& forall|i: int| 0 <= i < a.len() ==> (#[trigger] a[i])@ == b[i]@
}

fn names_equal(a: &Vec<String>, b: &Vec<String>) -> (r: bool)
    ensures
        r == same_names(a@, b@),
{
    if a.len() != b.len() {
        return false;
    }
    let mut i: usize = 0;
    while i < a.len()
        invariant
            a@.len() == b@.len(),
            i <= a@.len(),
            forall|j: int| 0 <= j < i ==> (#[trigger] a@[j])@ == b@[j]@,
        decreases a@.len() - i,
    {
        if a[i] != b[i] {
            return false;
        }
        i = i + 1;
    }
    true
}

impl PartialEq<VotingUpdate> for Voting {
    fn eq(&self, other: &VotingUpdate) -> (r: bool) {
        let name_ok = match &other.name {
            Some(n) => self.name == *n,
            None => true,
        };
        let description_ok = match &other.description {
            Some(d) => self.description == *d,
            None => true,
        };
        let state_ok = match other.state {
            Some(s) => match (&self.state, s) {
                (VotingState::Draft, VotingStateWithoutResults::Draft) => true,
                (VotingState::Open, VotingStateWithoutResults::Open) => true,
                (VotingState::Closed(_), VotingStateWithoutResults::Closed) => true,
                _ => false,
            },
            None => true,
        };
        let hide_ok = match other.hide_vote_counts {
            Some(h) => self.hide_vote_counts == h,
            None => true,
        };
        let winners_ok = match other.number_of_winners {
            Some(w) => self.number_of_winners == w,
            None => true,
        };
        let candidates_ok = match &other.candidates {
            Some(c) => names_equal(&self.candidates, c),
            None => true,
        };
        name_ok && description_ok && state_ok && hide_ok && winners_ok && candidates_ok
    }
}

impl vstd::std_specs::cmp::PartialEqSpecImpl<VotingUpdate> for Voting {
    open spec fn obeys_eq_spec() -> bool {
        true
    }

    open spec fn eq_spec(&self, other: &VotingUpdate) -> bool {
        agrees_with(*self, *other)
    }
}

/// The fields of a new voting.
#[derive(Default)]
pub struct VotingCreate {
    pub name: String,
    pub description: String,
    pub state: Option<VotingStateWithoutResults>,
    pub hide_vote_counts: bool,
    pub number_of_winners: i32,
    pub candidates: Option<Vec<CandidateId>>,
}

/// A change to a voting: each field that is `Some` replaces the current one.
#[derive(Debug, Clone)]
pub struct VotingUpdate {
    pub name: Option<String>,
    pub description: Option<String>,
    pub state: Option<VotingStateWithoutResults>,
    pub hide_vote_counts: Option<bool>,
    pub number_of_winners: Option<i32>,
    pub candidates: Option<Vec<CandidateId>>,
}

#[derive(Debug)]
pub struct HasVoted {
    pub voting_id: VotingId,
    pub token_id: TokenId,
    pub has_voted: bool,
}

/// A voter token.
#[derive(Debug, Clone)]
pub struct Token {
    pub id: TokenId,
    pub token: String,
    pub state: TokenState,
    pub alias: Alias,
}

impl Token {
    /// Moves the token to `new_state`. Any token can be voided, and an
    /// unactivated one can be activated; every other change is refused.
    pub fn handle_state_change(self, new_state: TokenState) -> (r: Result<Token, ApiError>)
        ensures
            (new_state == TokenState::Voided || (self.state == TokenState::Unactivated
                && new_state == TokenState::Activated)) ==> r == Ok::<Token, ApiError>(
                Token { state: new_state, ..self },
            ),
            !(new_state == TokenState::Voided || (self.state == TokenState::Unactivated
                && new_state == TokenState::Activated)) ==> r == Err::<Token, ApiError>(
                ApiError::InvalidInput,
            ),
    {
        let mut token = self;
        match (token.state, new_state) {
            (_, TokenState::Voided) => {
                token.state = TokenState::Voided;
                Ok(token)
            },
            (TokenState::Unactivated, TokenState::Activated) => {
                token.state = TokenState::Activated;
                Ok(token)
            },
            _ => Err(ApiError::InvalidInput),
        }
    }
}

/// One ranked entry of a ballot. `id` is the ballot's 128-bit UUID.
#[derive(Debug)]
pub struct Vote {
    pub voting_id: VotingId,
    pub id: u128,
    pub candidate: CandidateId,
    pub rank: i32,
}

#[derive(Debug)]
pub struct TokenUpdate {
    pub state: TokenState,
}

#[derive(Debug)]
pub struct VoteCastStatus {
    pub voting: VotingId,
    pub token: TokenId,
    pub has_voted: bool,
}

/// A token that has not voted yet, as shown to the administrator.
#[derive(Debug, Clone)]
pub struct AdminDisplayToken {
    pub token: String,
    pub alias: String,
}

/// The claims of an administrator's session token: expiry and issue time,
/// in seconds since the epoch.
#[derive(Debug)]
pub struct JsonWebTokenClaims {
    pub exp: i64,
    pub iat: i64,
}

/// The reply to creating an election. `created_at` is in seconds since the
/// Unix epoch (UTC).
#[derive(Debug)]
pub struct PostCreateElectionResponse {
    pub id: i32,
    pub name: String,
    pub created_at: i64,
}

/// An open voting as shown to the administrator, with the tokens that have
/// not voted yet.
#[derive(Debug, Clone)]
pub struct AdminOpenVoting {
    pub id: VotingId,
    pub name: String,
    pub description: String,
    pub state: VotingState,
    pub hide_vote_counts: bool,
    pub number_of_winners: i32,
    pub total_votes: i32,
    pub eligible_token_count: i32,
    pub candidates: Vec<CandidateId>,
    pub tokens_not_voted: Vec<AdminDisplayToken>,
}

/// A draft voting as shown to the administrator.
#[derive(Debug, Clone)]
pub struct AdminDraftVoting {
    pub id: VotingId,
    pub name: String,
    pub description: String,
    pub state: VotingState,
    pub candidates: Vec<CandidateId>,
    pub hide_vote_counts: bool,
    pub number_of_winners: i32,
}

/// The data of the administrator's list of votings.
pub struct AdminVotingListTemplate {
    pub draft_votings: Vec<AdminDraftVoting>,
    pub open_votings: Vec<AdminOpenVoting>,
    pub closed_votings: Vec<Voting>,
    pub login_state: LoginState,
}

/// The data of the voter's list of votings.
pub struct VotingListTemplate {
    pub open_votings: Vec<VotingForVoterTemplate>,
    pub draft_votings: Vec<Voting>,
    pub closed_votings: Vec<Voting>,
    pub login_state: LoginState,
    pub newly_created_vote_uuids: Option<Vec<String>>,
}

/// The data of the page that creates an election.
pub struct CreateElectionTemplate {
    pub login_state: LoginState,
}

/// The settings of the service.
pub struct Config {
    pub port: u16,
    pub database_url: String,
    pub hmac_key: String,
    pub admin_password: String,
}

} // verus!
