use vstd::prelude::*;
use vstd::string::*;
use crate::state::{RackCell, State};

verus! {

/// The JSON text of an integer, as serde_json writes it.
pub uninterp spec fn int_json(n: int) -> Seq<char>;

/// Relies on serde_json::to_string: the JSON text of an integer. Writing an
/// integer cannot fail.
#[verifier::external_body]
fn int_to_json(n: i64) -> (r: String)
    ensures
        r@ == int_json(n as int),
{
    serde_json::to_string(&n).unwrap()
}

/// The record text of a rack reference: `null` when absent, else a pair.
pub open spec fn rack_text(r: Option<RackCell>) -> Seq<char> {
    match r {
        None => "null"@,
        Some(c) => "["@ + int_json(c.x as int) + ","@ + int_json(c.y as int) + "]"@,
    }
}

/// The record text of a state: a JSON object with the position under `a`,
/// the carry flag under `c` and the rack reference under `r`.
pub open spec fn record_text(s: State) -> Seq<char> {
    "{\"a\":["@ + int_json(s.pos.x as int) + ","@ + int_json(s.pos.y as int) + "],\"c\":"@
        + int_json(s.carrying as int) + ",\"r\":"@ + rack_text(s.rack) + "}"@
}

/// Writes the record text of a state.
pub fn serialize_state(s: &State) -> (r: String)
    ensures
        r@ == record_text(*s),
{
    let mut t = String::from_str("{\"a\":[");
    t.append(int_to_json(s.pos.x as i64).as_str());
    t.append(",");
    t.append(int_to_json(s.pos.y as i64).as_str());
    t.append("],\"c\":");
    t.append(int_to_json(s.carrying as i64).as_str());
    t.append(",\"r\":");
    match s.rack {
        None => {
            t.append("null");
        },
        Some(c) => {
            t.append("[");
            t.append(int_to_json(c.x as i64).as_str());
            t.append(",");
            t.append(int_to_json(c.y as i64).as_str());
            t.append("]");
        },
    }
    t.append("}");
    t
}

} // verus!
