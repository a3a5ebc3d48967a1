//! The message model: the closed sets of request commands and response
//! answers that one request/response exchange carries, plus the failure
//! payload that a responder may send in place of an answer.

use vstd::prelude::*;

verus! {

/// A human-readable failure description sent across the boundary when a
/// response reports a failure instead of a normal answer.
pub struct ErrorDetails {
    pub error_reason: String,
}

/// A power-state action that a client may ask the service to trigger.
#[derive(Clone, Copy, PartialEq, Eq, Structural, Debug)]
pub enum Splash {
    PowerOff,
    Reboot,
    Sleep,
}

/// A request command. The set is closed: both ends match it exhaustively,
/// and an unrecognized wire payload is a hard decode error.
#[derive(Clone, Copy, PartialEq, Eq, Structural, Debug)]
pub enum CommandToQinit {
    GetLoginCredentials,
    StopListening,
    TriggerSplash(Splash),
}

/// A pair of plain-text credential fields.
#[derive(Clone, Debug)]
pub struct LoginForm {
    pub username: String,
    pub password: String,
}

/// A response answer. `Login(None)` means no credentials are available.
#[derive(Clone)]
pub enum AnswerFromQinit {
    Login(Option<LoginForm>),
}

/// The mathematical value of a `LoginForm`: its two fields as character
/// sequences.
pub struct LoginFormModel {
    pub username: Seq<char>,
    pub password: Seq<char>,
}

/// The mathematical value of an `AnswerFromQinit`.
pub enum AnswerModel {
    Login(Option<LoginFormModel>),
}

impl View for LoginForm {
    type V = LoginFormModel;

    open spec fn view(&self) -> LoginFormModel {
        LoginFormModel { username: self.username@, password: self.password@ }
    }
}

impl View for AnswerFromQinit {
    type V = AnswerModel;

    open spec fn view(&self) -> AnswerModel {
        match self {
            AnswerFromQinit::Login(None) => AnswerModel::Login(None),
            AnswerFromQinit::Login(Some(form)) => AnswerModel::Login(Some(form@)),
        }
    }
}

impl View for ErrorDetails {
    type V = Seq<char>;

    open spec fn view(&self) -> Seq<char> {
        self.error_reason@
    }
}

} // verus!
