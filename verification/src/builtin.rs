//! The builtin registry: the fixed mapping from name to operation, and the
//! effects that operations ask the caller to perform.

use vstd::prelude::*;
use vstd::string::StringExecFns;

verus! {

/// The operations registered for a run: console output, console input, and
/// a blocking pause. Their OS-level work is the caller's; evaluation only
/// decides what to do.
#[derive(Debug, Clone, Copy, PartialEq, Eq, Structural)]
pub enum Builtin {
    Out,
    In,
    Wait,
}

/// Whether `name` is a registered builtin name. A call to any other name
/// quietly yields no value: unknown builtins are not errors.
pub open spec fn is_builtin(name: Seq<char>) -> bool {
    name == "out"@ || name == "in"@ || name == "wait"@
}

/// The operation registered under `name`.
pub open spec fn spec_builtin_of(name: Seq<char>) -> Option<Builtin> {
    if name == "out"@ {
        Some(Builtin::Out)
    } else if name == "in"@ {
        Some(Builtin::In)
    } else if name == "wait"@ {
        Some(Builtin::Wait)
    } else {
        None
    }
}

/// The registry as data: each registered name with its operation, in the
/// order `out`, `in`, `wait`.
pub fn builtins() -> (r: Vec<(String, Builtin)>)
    ensures
        r@.len() == 3,
        r@[0].0@ == "out"@ && r@[0].1 == Builtin::Out,
        r@[1].0@ == "in"@ && r@[1].1 == Builtin::In,
        r@[2].0@ == "wait"@ && r@[2].1 == Builtin::Wait,
{
    let mut v: Vec<(String, Builtin)> = Vec::new();
    v.push((String::from_str("out"), Builtin::Out));
    v.push((String::from_str("in"), Builtin::In));
    v.push((String::from_str("wait"), Builtin::Wait));
    v
}

/// Looks a name up in the registry mapping.
pub fn builtin_of(name: &String) -> (r: Option<Builtin>)
    ensures
        r == spec_builtin_of(name@),
{
    if name.eq(&String::from_str("out")) {
        Some(Builtin::Out)
    } else if name.eq(&String::from_str("in")) {
        Some(Builtin::In)
    } else if name.eq(&String::from_str("wait")) {
        Some(Builtin::Wait)
    } else {
        None
    }
}

/// The mathematical model of one effect.
pub ghost enum EffectModel {
    Print(Seq<char>),
    Sleep(int),
}

/// One observable side effect of a run, in the order it was asked for:
/// text written to the output, or a blocking pause in whole seconds.
#[derive(Debug, Clone, PartialEq, Eq)]
pub enum Effect {
    Print(String),
    Sleep(u64),
}

impl View for Effect {
    type V = EffectModel;

    open spec fn view(&self) -> EffectModel {
        match self {
            Effect::Print(s) => EffectModel::Print(s@),
            Effect::Sleep(n) => EffectModel::Sleep(*n as int),
        }
    }
}

/// The models of an effect sequence, in order.
pub open spec fn effect_models(es: Seq<Effect>) -> Seq<EffectModel> {
    es.map_values(|e: Effect| e@)
}

/// Effect models distribute over push.
pub proof fn lemma_effect_models_push(es: Seq<Effect>, e: Effect)
    ensures
        effect_models(es.push(e)) == effect_models(es).push(e@),
{
    assert(effect_models(es.push(e)) =~= effect_models(es).push(e@));
}

} // verus!
