//! Test-handler scenarios: a script of actions an instrumented function runs
//! during one invocation, and the shape of what the collector gathered.

use std::collections::HashMap;

use base64::Engine;

use vstd::prelude::*;

verus! {

/// What base64 encoding produces for the given bytes: the standard alphabet
/// with padding, a function of the input alone.
pub uninterp spec fn base64_of(data: Seq<u8>) -> Seq<char>;

/// Relies on base64's standard engine: deterministic in its input.
#[verifier::external_body]
fn b64_encode(data: &[u8]) -> (r: String)
    ensures
        r@ == base64_of(data@),
{
    base64::engine::general_purpose::STANDARD.encode(data)
}

/// One step of a scenario.
#[derive(Debug)]
pub enum Action {
    /// POST a payload to the relay's OTLP listener; the body is base64.
    PostOtlp { path: String, body: String },
    /// Drain and return what the mock collector gathered so far.
    GetCollected { timeout_ms: Option<u64>, min_expected: Option<usize> },
}

/// One outbound request the mock collector observed.
#[derive(Debug)]
pub struct CollectedExport {
    pub path: String,
    pub content_type: Option<String>,
    pub content_encoding: Option<String>,
    pub headers: HashMap<String, String>,
    pub body: String,
}

/// The outcome of one action, as the handler reports it.
#[derive(Debug)]
pub struct ActionResult {
    pub action: String,
    pub path: Option<String>,
    pub status: Option<u16>,
    pub collected: Option<Vec<CollectedExport>>,
}

/// Describes what the test handler does during a single invocation.
#[derive(Debug)]
pub struct Scenario {
    pub actions: Vec<Action>,
}

impl Scenario {
    pub fn new() -> (r: Self)
        ensures
            r.actions@.len() == 0,
    {
        Scenario { actions: Vec::new() }
    }

    /// The handler will POST to the relay's OTLP listener at the given path.
    pub fn post_otlp(self, path: &str, body: &[u8]) -> (r: Self)
        ensures
            r.actions@.len() == self.actions@.len() + 1,
            r.actions@.drop_last() == self.actions@,
            r.actions@.last() matches Action::PostOtlp { path: p, body: b } && p@ == path@ && b@
                == base64_of(body@),
    {
        let mut s = self;
        let ghost pre = s.actions@;
        s.actions.push(Action::PostOtlp { path: path.to_owned(), body: b64_encode(body) });
        proof {
            assert(s.actions@.drop_last() =~= pre);
        }
        s
    }

    /// The handler will drain and return collected exports from the mock
    /// collector.
    pub fn get_collected(self, timeout_ms: Option<u64>, min_expected: Option<usize>) -> (r: Self)
        ensures
            r.actions@.len() == self.actions@.len() + 1,
            r.actions@.drop_last() == self.actions@,
            r.actions@.last() == (Action::GetCollected { timeout_ms, min_expected }),
    {
        let mut s = self;
        let ghost pre = s.actions@;
        s.actions.push(Action::GetCollected { timeout_ms, min_expected });
        proof {
            assert(s.actions@.drop_last() =~= pre);
        }
        s
    }
}

impl Default for Scenario {
    fn default() -> (r: Self)
        ensures
            r.actions@.len() == 0,
    {
        Scenario::new()
    }
}

} // verus!
