//! The language-model layer of the Director: a model chooses among the
//! Director's levers, which are already legal and bounded. Its decisions are
//! emitted as commands (journaled, so a replay never calls the model again).
//!
//! This module turns the model's answer into bounded Director commands; the
//! exchange with the service itself belongs to the application.

use vstd::prelude::*;
use vstd::string::*;

use crate::proto::Command;
use crate::text::{extract_json, json_block, same_text};

verus! {

/// What the logic reads of one action of the model's answer (a JSON object):
/// each field when present with the right type.
#[derive(Debug, Clone)]
pub struct LeverAction {
    pub lever: Option<String>,
    pub from: Option<u64>,
    pub to: Option<u64>,
    pub amount: Option<u64>,
    pub x: Option<u64>,
    pub y: Option<u64>,
}

/// The actions listed under "actions" in the JSON text `text`, or `None`
/// when the text is not JSON or has no such array.
pub uninterp spec fn json_actions_of(text: Seq<char>) -> Option<Seq<LeverAction>>;

/// Reads the "actions" array of a JSON text with `serde_json::from_str` into
/// a `serde_json::Value`, then each element's fields with `Value::get` and
/// `as_str` / `as_u64`; the result is named by [`json_actions_of`].
#[verifier::external_body]
fn json_actions(text: &str) -> (r: Option<Vec<LeverAction>>)
    ensures
        r matches Some(v) ==> json_actions_of(text@) == Some(v@),
        r is None ==> json_actions_of(text@) is None,
{
    let v: serde_json::Value = serde_json::from_str(text).ok()?;
    let arr = v.get("actions")?.as_array()?;
    Some(arr.iter().map(|a| LeverAction {
        lever: a.get("lever").and_then(|f| f.as_str()).map(|s| s.to_string()),
        from: a.get("from").and_then(|f| f.as_u64()),
        to: a.get("to").and_then(|f| f.as_u64()),
        amount: a.get("amount").and_then(|f| f.as_u64()),
        x: a.get("x").and_then(|f| f.as_u64()),
        y: a.get("y").and_then(|f| f.as_u64()),
    }).collect())
}

/// `v` bounded to `[lo, hi]`.
pub open spec fn clamp_spec(v: u64, lo: u64, hi: u64) -> u64 {
    if v < lo { lo } else if v > hi { hi } else { v }
}

/// The target tile of an action, when both coordinates are given and (read
/// as `u32`) lie on a `w` × `h` map.
pub open spec fn xy_spec(a: LeverAction, w: u32, h: u32) -> Option<(u32, u32)> {
    match (a.x, a.y) {
        (Some(x), Some(y)) => if (x as u32) < w && (y as u32) < h { Some((x as u32, y as u32)) } else { None },
        _ => None,
    }
}

/// The target tile of an action (see [`xy_spec`]).
pub fn xy(a: &LeverAction, width: u32, height: u32) -> (r: Option<(u32, u32)>)
    ensures
        r == xy_spec(*a, width, height),
{
    let x = match a.x {
        Some(v) => v as u32,
        None => {
            return None;
        },
    };
    let y = match a.y {
        Some(v) => v as u32,
        None => {
            return None;
        },
    };
    if x < width && y < height {
        Some((x, y))
    } else {
        None
    }
}

/// The command an action asks for, if it is a well-formed lever: a grievance
/// between two different nations (amount 1..=10), or a calamity (1..=30) or a
/// windfall (1..=40) on a tile of the map. A missing amount counts as 0.
pub open spec fn lever_command(a: LeverAction, w: u32, h: u32) -> Option<Command> {
    let amount: u64 = match a.amount { Some(v) => v, None => 0 };
    match a.lever {
        Some(l) => if l@ == "grievance"@ {
            match (a.from, a.to) {
                (Some(f), Some(t)) => if f != t {
                    Some(Command::DirectorGrievance { from: f as u16, to: t as u16, amount: clamp_spec(amount, 1, 10) as u32 })
                } else {
                    None
                },
                _ => None,
            }
        } else if l@ == "blight"@ {
            match xy_spec(a, w, h) {
                Some(p) => Some(Command::DirectorBlight { x: p.0, y: p.1, amount: clamp_spec(amount, 1, 30) as u32 }),
                None => None,
            }
        } else if l@ == "windfall"@ {
            match xy_spec(a, w, h) {
                Some(p) => Some(Command::DirectorWindfall { x: p.0, y: p.1, amount: clamp_spec(amount, 1, 40) as u32 }),
                None => None,
            }
        } else {
            None
        },
        None => None,
    }
}

/// The commands of the first `n` actions.
pub open spec fn commands_upto(acts: Seq<LeverAction>, n: int, w: u32, h: u32) -> Seq<Command>
    decreases n,
{
    if n <= 0 {
        Seq::empty()
    } else {
        let prev = commands_upto(acts, n - 1, w, h);
        match lever_command(acts[n - 1], w, h) {
            Some(c) => prev.push(c),
            None => prev,
        }
    }
}

/// The commands of an answer: those of its first three actions (an equity
/// cap), or `None` when its JSON block has no actions array.
pub open spec fn parse_actions_spec(content: Seq<char>, w: u32, h: u32) -> Option<Seq<Command>> {
    match json_actions_of(json_block(content)) {
        Some(acts) => Some(commands_upto(acts, if acts.len() < 3 { acts.len() as int } else { 3 }, w, h)),
        None => None,
    }
}

/// The command an action asks for (see [`lever_command`]).
fn action_command(a: &LeverAction, width: u32, height: u32) -> (r: Option<Command>)
    ensures
        r == lever_command(*a, width, height),
{
    let amount: u64 = match a.amount {
        Some(v) => v,
        None => 0,
    };
    let lever = match &a.lever {
        Some(l) => l.as_str(),
        None => {
            return None;
        },
    };
    proof {
        reveal_strlit("grievance");
        reveal_strlit("blight");
        reveal_strlit("windfall");
    }
    if same_text(lever, "grievance") {
        match (a.from, a.to) {
            (Some(f), Some(t)) => {
                if f != t {
                    let amt = if amount < 1 { 1 } else if amount > 10 { 10 } else { amount };
                    Some(Command::DirectorGrievance { from: f as u16, to: t as u16, amount: amt as u32 })
                } else {
                    None
                }
            },
            _ => None,
        }
    } else if same_text(lever, "blight") {
        match xy(a, width, height) {
            Some((x, y)) => {
                let amt = if amount < 1 { 1 } else if amount > 30 { 30 } else { amount };
                Some(Command::DirectorBlight { x, y, amount: amt as u32 })
            },
            None => None,
        }
    } else if same_text(lever, "windfall") {
        match xy(a, width, height) {
            Some((x, y)) => {
                let amt = if amount < 1 { 1 } else if amount > 40 { 40 } else { amount };
                Some(Command::DirectorWindfall { x, y, amount: amt as u32 })
            },
            None => None,
        }
    } else {
        None
    }
}

/// Parses and bounds the model's answer into Director commands for a map of
/// `width` × `height` tiles (see [`parse_actions_spec`]); `None` when the
/// answer is unusable (the caller then falls back on the deterministic
/// Director).
pub fn parse_actions(content: &str, width: u32, height: u32) -> (r: Option<Vec<Command>>)
    ensures
        r matches Some(v) ==> parse_actions_spec(content@, width, height) == Some(v@),
        r is None ==> parse_actions_spec(content@, width, height) is None,
{
    let json = extract_json(content);
    let acts = match json_actions(json) {
        Some(a) => a,
        None => {
            return None;
        },
    };
    let n = if acts.len() < 3 { acts.len() } else { 3 };
    let mut cmds: Vec<Command> = Vec::new();
    let mut i: usize = 0;
    while i < n
        invariant
            n <= acts@.len(),
            n == (if acts@.len() < 3 { acts@.len() as int } else { 3 }),
            0 <= i <= n,
            cmds@ == commands_upto(acts@, i as int, width, height),
        decreases n - i,
    {
        match action_command(&acts[i], width, height) {
            Some(c) => cmds.push(c),
            None => {},
        }
        i = i + 1;
    }
    Some(cmds)
}

/// The model of a chat completion service: the key, the model's name and the
/// endpoint.
pub struct DeepSeek {
    key: String,
    model: String,
    url: String,
}

impl DeepSeek {
    pub closed spec fn key_spec(&self) -> Seq<char> {
        self.key@
    }

    pub closed spec fn model_spec(&self) -> Seq<char> {
        self.model@
    }

    pub closed spec fn url_spec(&self) -> Seq<char> {
        self.url@
    }

    /// A client with API key `key` and model `model` ("deepseek-chat" when
    /// not given), speaking to DeepSeek's chat endpoint.
    pub fn from_parts(key: String, model: Option<String>) -> (d: Self)
        ensures
            d.key_spec() == key@,
            d.model_spec() == match model {
                Some(m) => m@,
                None => "deepseek-chat"@,
            },
            d.url_spec() == "https://api.deepseek.com/chat/completions"@,
    {
        let model = match model {
            Some(m) => m,
            None => String::from_str("deepseek-chat"),
        };
        Self { key, model, url: String::from_str("https://api.deepseek.com/chat/completions") }
    }

    /// The API key.
    pub fn key(&self) -> (k: &str)
        ensures
            k@ == self.key_spec(),
    {
        self.key.as_str()
    }

    /// The model's name.
    pub fn model(&self) -> (m: &str)
        ensures
            m@ == self.model_spec(),
    {
        self.model.as_str()
    }

    /// The endpoint.
    pub fn url(&self) -> (u: &str)
        ensures
            u@ == self.url_spec(),
    {
        self.url.as_str()
    }
}

} // verus!
