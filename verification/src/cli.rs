//! The commands, and which one a command line runs.
//!
//! Exit codes are part of the contract — scripts and skills branch on them,
//! so they are as much an interface as the printed text is:
//!   0  proceed
//!   1  the round crossed a boundary, or the floor went red
//!   2  stop: a person is needed
//!   3  a driver could not run at all

use vstd::prelude::*;
use crate::control::Res;

verus! {

/// A command and its arguments.
pub enum Command {
    /// Scaffold the goals/ control plane.
    Init { path: Option<String>, force: bool },
    /// Restore the fixture and prove the world is healthy.
    Preflight,
    /// Run the deterministic floor.
    Floor,
    /// Start a round on one approved request.
    Open { request: String, force: bool },
    /// Send the request through a fresh interaction.
    Drive { verify: bool },
    /// Read what happened.
    Score { verify: bool },
    /// Name the largest gap and its layer.
    Classify { layer: String, gap: String },
    /// Check what the round changed against its authority.
    Guard,
    /// Floor + authority + the same request again.
    Verify,
    /// Close the round and record what remains.
    Close { outcome: String, friction: Option<String>, force: bool },
    /// End the round without counting it as progress.
    Abort { reason: String },
    /// Record what cost time this round.
    Friction { note: String },
    /// The human boundary between batches.
    Batch { continue_: bool, redirect: Option<String>, stop: Option<String> },
    /// Where the loop is and what comes next.
    Status,
    /// The packet a fresh agent session should read.
    Brief { out: Option<String> },
}

/// What a person decides at the batch boundary.
pub enum BatchAction {
    /// Stop the loop, for a reason.
    Stop(String),
    /// Start the next batch on a new `;`-separated queue.
    Redirect(String),
    /// Start the next batch on the same queue.
    Continue,
    /// Decide nothing; report the batch.
    Report,
}

/// The model of a batch decision.
pub ghost enum BatchActionV {
    Stop(Seq<char>),
    Redirect(Seq<char>),
    Continue,
    Report,
}

impl View for BatchAction {
    type V = BatchActionV;

    open spec fn view(&self) -> BatchActionV {
        match self {
            BatchAction::Stop(r) => BatchActionV::Stop(r@),
            BatchAction::Redirect(q) => BatchActionV::Redirect(q@),
            BatchAction::Continue => BatchActionV::Continue,
            BatchAction::Report => BatchActionV::Report,
        }
    }
}

/// What the batch flags decide: a stop wins over a redirect, which wins over
/// a continue; with none of them, the batch is only reported.
pub open spec fn batch_decision(continue_: bool, redirect: Option<Seq<char>>, stop: Option<Seq<char>>) -> BatchActionV {
    match stop {
        Some(r) => BatchActionV::Stop(r),
        None => match redirect {
            Some(q) => BatchActionV::Redirect(q),
            None => if continue_ {
                BatchActionV::Continue
            } else {
                BatchActionV::Report
            },
        },
    }
}

/// What the batch flags decide.
pub fn batch_action(continue_: bool, redirect: Option<String>, stop: Option<String>) -> (r: BatchAction)
    ensures
        r@ == batch_decision(
            continue_,
            match redirect {
                Some(q) => Some(q@),
                None => None,
            },
            match stop {
                Some(s) => Some(s@),
                None => None,
            },
        ),
{
    match stop {
        Some(r) => BatchAction::Stop(r),
        None => match redirect {
            Some(q) => BatchAction::Redirect(q),
            None => if continue_ {
                BatchAction::Continue
            } else {
                BatchAction::Report
            },
        },
    }
}

/// The commands as a program runs them: each reads and writes the
/// repository, runs what the configuration names, prints, and returns its
/// exit code or the error that ends it.
pub trait Commands {
    fn init(&mut self, path: Option<String>, force: bool) -> Res<i32>;

    fn preflight(&mut self) -> Res<i32>;

    fn floor(&mut self) -> Res<i32>;

    fn open(&mut self, request: String, force: bool) -> Res<i32>;

    fn drive(&mut self, verify: bool) -> Res<i32>;

    fn score(&mut self, verify: bool) -> Res<i32>;

    fn classify(&mut self, layer: String, gap: String) -> Res<i32>;

    fn guard(&mut self) -> Res<i32>;

    fn verify(&mut self) -> Res<i32>;

    fn close(&mut self, outcome: String, friction: Option<String>, force: bool) -> Res<i32>;

    fn abort(&mut self, reason: String) -> Res<i32>;

    fn friction(&mut self, note: String) -> Res<i32>;

    fn batch(&mut self, action: BatchAction) -> Res<i32>;

    fn status(&mut self) -> Res<i32>;

    fn brief(&mut self, out: Option<String>) -> Res<i32>;
}

/// Runs `cmd` with its arguments: the handler for the command runs on `c`,
/// with the command's arguments (for a batch, with what its flags decide),
/// and its result is the result.
pub fn dispatch<C: Commands>(c: &mut C, cmd: Command) -> (r: Res<i32>)
    ensures
        match cmd {
            Command::Init { path, force } => exists|x: &mut C| #![auto] call_ensures(C::init, (x, path, force), r) && *x == *old(c) && *final(x) == *final(c),
            Command::Preflight => exists|x: &mut C| #![auto] call_ensures(C::preflight, (x,), r) && *x == *old(c) && *final(x) == *final(c),
            Command::Floor => exists|x: &mut C| #![auto] call_ensures(C::floor, (x,), r) && *x == *old(c) && *final(x) == *final(c),
            Command::Open { request, force } => exists|x: &mut C| #![auto] call_ensures(C::open, (x, request, force), r) && *x == *old(c) && *final(x) == *final(c),
            Command::Drive { verify } => exists|x: &mut C| #![auto] call_ensures(C::drive, (x, verify), r) && *x == *old(c) && *final(x) == *final(c),
            Command::Score { verify } => exists|x: &mut C| #![auto] call_ensures(C::score, (x, verify), r) && *x == *old(c) && *final(x) == *final(c),
            Command::Classify { layer, gap } => exists|x: &mut C| #![auto] call_ensures(C::classify, (x, layer, gap), r) && *x == *old(c) && *final(x) == *final(c),
            Command::Guard => exists|x: &mut C| #![auto] call_ensures(C::guard, (x,), r) && *x == *old(c) && *final(x) == *final(c),
            Command::Verify => exists|x: &mut C| #![auto] call_ensures(C::verify, (x,), r) && *x == *old(c) && *final(x) == *final(c),
            Command::Close { outcome, friction, force } => exists|x: &mut C| #![auto] call_ensures(C::close, (x, outcome, friction, force), r) && *x == *old(c) && *final(x) == *final(c),
            Command::Abort { reason } => exists|x: &mut C| #![auto] call_ensures(C::abort, (x, reason), r) && *x == *old(c) && *final(x) == *final(c),
            Command::Friction { note } => exists|x: &mut C| #![auto] call_ensures(C::friction, (x, note), r) && *x == *old(c) && *final(x) == *final(c),
            Command::Batch { continue_, redirect, stop } => exists|x: &mut C, a: BatchAction| #![auto] call_ensures(C::batch, (x, a), r) && *x == *old(c) && *final(x) == *final(c)
                && a@ == batch_decision(
                continue_,
                match redirect {
                    Some(q) => Some(q@),
                    None => None,
                },
                match stop {
                    Some(s) => Some(s@),
                    None => None,
                },
            ),
            Command::Status => exists|x: &mut C| #![auto] call_ensures(C::status, (x,), r) && *x == *old(c) && *final(x) == *final(c),
            Command::Brief { out } => exists|x: &mut C| #![auto] call_ensures(C::brief, (x, out), r) && *x == *old(c) && *final(x) == *final(c),
        },
{
    match cmd {
        Command::Init { path, force } => c.init(path, force),
        Command::Preflight => c.preflight(),
        Command::Floor => c.floor(),
        Command::Open { request, force } => c.open(request, force),
        Command::Drive { verify } => c.drive(verify),
        Command::Score { verify } => c.score(verify),
        Command::Classify { layer, gap } => c.classify(layer, gap),
        Command::Guard => c.guard(),
        Command::Verify => c.verify(),
        Command::Close { outcome, friction, force } => c.close(outcome, friction, force),
        Command::Abort { reason } => c.abort(reason),
        Command::Friction { note } => c.friction(note),
        Command::Batch { continue_, redirect, stop } => c.batch(batch_action(continue_, redirect, stop)),
        Command::Status => c.status(),
        Command::Brief { out } => c.brief(out),
    }
}

} // verus!
