use stv_tally::api_types::ApiError;
use stv_tally::ctx::Ctx;
use stv_tally::models::{
    LoginState, Token, TokenState, Voting, VotingForVoterTemplate, VotingResult, VotingState,
    VotingStateWithoutResults, VotingUpdate,
};

fn token(state: TokenState) -> Token {
    Token { id: 7, token: "abc123".to_string(), state, alias: Some("x".to_string()) }
}

#[test]
fn token_can_always_be_voided() {
    for s in [TokenState::Unactivated, TokenState::Activated, TokenState::Voided] {
        let t = token(s).handle_state_change(TokenState::Voided).unwrap();
        assert_eq!(t.state, TokenState::Voided);
        assert_eq!(t.token, "abc123");
    }
}

#[test]
fn only_unactivated_token_can_be_activated() {
    let t = token(TokenState::Unactivated).handle_state_change(TokenState::Activated).unwrap();
    assert_eq!(t.state, TokenState::Activated);
    assert_eq!(
        token(TokenState::Activated).handle_state_change(TokenState::Activated).unwrap_err(),
        ApiError::InvalidInput
    );
    assert_eq!(
        token(TokenState::Voided).handle_state_change(TokenState::Unactivated).unwrap_err(),
        ApiError::InvalidInput
    );
}

#[test]
fn voting_state_conversions() {
    let closed = VotingState::Closed(VotingResult { round_results: vec![], winners: vec![] });
    assert_eq!(VotingStateWithoutResults::from(closed.clone()), VotingStateWithoutResults::Closed);
    assert!(closed == VotingStateWithoutResults::Closed);
    assert!(!(VotingState::Open == VotingStateWithoutResults::Draft));
    let back = VotingState::from_state(VotingStateWithoutResults::Open);
    assert!(back == VotingStateWithoutResults::Open);
}

#[test]
fn ctx_keeps_login_state() {
    let state = LoginState::Voter { token: "t".to_string(), alias: "al".to_string() };
    let ctx = Ctx::new(state.clone());
    assert_eq!(ctx.login_state(), state);
    assert_eq!(Ctx::new(LoginState::Admin).login_state(), LoginState::Admin);
}

fn voting() -> Voting {
    Voting {
        id: 3,
        name: "Board".to_string(),
        description: "Annual".to_string(),
        state: VotingState::Open,
        created_at: 1_700_000_000,
        hide_vote_counts: false,
        number_of_winners: 2,
        candidates: vec!["a".to_string(), "b".to_string()],
    }
}

fn no_change() -> VotingUpdate {
    VotingUpdate {
        name: None,
        description: None,
        state: None,
        hide_vote_counts: None,
        number_of_winners: None,
        candidates: None,
    }
}

#[test]
fn voting_agrees_with_update_of_its_own_values() {
    let v = voting();
    assert!(v == no_change());
    let same = VotingUpdate {
        name: Some("Board".to_string()),
        state: Some(VotingStateWithoutResults::Open),
        number_of_winners: Some(2),
        candidates: Some(vec!["a".to_string(), "b".to_string()]),
        ..no_change()
    };
    assert!(v == same);
}

#[test]
fn voting_differs_from_update_that_changes_a_field() {
    let v = voting();
    assert!(!(v == VotingUpdate { description: Some("Other".to_string()), ..no_change() }));
    assert!(!(v == VotingUpdate { state: Some(VotingStateWithoutResults::Closed), ..no_change() }));
    assert!(!(v == VotingUpdate { hide_vote_counts: Some(true), ..no_change() }));
    assert!(!(v == VotingUpdate { candidates: Some(vec!["b".to_string(), "a".to_string()]), ..no_change() }));
    assert!(!(v == VotingUpdate { candidates: Some(vec!["a".to_string()]), ..no_change() }));
}

#[test]
fn voter_view_converts_to_voting() {
    let t = VotingForVoterTemplate {
        id: 9,
        name: "n".to_string(),
        description: "d".to_string(),
        state: VotingState::Draft,
        created_at: 5,
        hide_vote_counts: true,
        candidates: vec!["x".to_string()],
        number_of_winners: 1,
        you_have_voted: true,
    };
    let v = Voting::from(t);
    assert_eq!(v.id, 9);
    assert_eq!(v.name, "n");
    assert_eq!(v.created_at, 5);
    assert!(v.hide_vote_counts);
    assert_eq!(v.candidates, vec!["x".to_string()]);
    assert!(v == VotingUpdate { state: Some(VotingStateWithoutResults::Draft), ..no_change() });
}
