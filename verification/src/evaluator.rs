//! The evaluator: a single depth-first, post-order walk of the parsed
//! statements against one mutable variable environment, collecting the side
//! effects it decides on as an ordered effect list.

use vstd::prelude::*;
use vstd::hash_map::StringHashMap;
use crate::ast::{
    Node, NodeModel, node_model, node_models, nodes_wf, node_wf, lemma_nodes_wf_index,
};
use crate::base_literal::{
    BaseLiteral, NumError, NumModel, num_display, spec_decode, spec_from_int, spec_lower,
    valid_digits, chars_to_string, str_chars,
};
use crate::builtin::{
    Builtin, Effect, EffectModel, builtin_of, effect_models, is_builtin, lemma_effect_models_push,
};
use crate::parser::{ParseError, Parser, ParseOut, spec_parse_stmts};
use crate::token::TokenType;
use crate::tokenizer::{LexError, LexOut, is_space_char, spec_tokenize, tokenize, is_space_c};

verus! {

/// A fatal evaluation failure: a numeral operation failed, or an arithmetic
/// operand produced no value.
#[derive(Debug, Clone, Copy, PartialEq, Eq, Structural)]
pub enum EvalError {
    /// A numeral construction, conversion or arithmetic failure.
    Num(NumError),
    /// An arithmetic operand yielded no value, so the operation cannot run.
    MissingOperand,
}

/// The mathematical state of a run: the environment, the effects decided so
/// far, and the input lines not yet read.
pub ghost struct CtxModel {
    pub env: Map<Seq<char>, NumModel>,
    pub effects: Seq<EffectModel>,
    pub inputs: Seq<Seq<char>>,
}

/// A value's radix lies in 2..=64, as every value the evaluator produces.
pub open spec fn val_wf(v: NumModel) -> bool {
    2 <= v.base <= 64
}

/// The value of a numeral model, as decoding yields it.
pub open spec fn num_decode(v: NumModel) -> Result<u64, NumError> {
    spec_decode(v.base, v.digits)
}

/// The models of the values in a list.
pub open spec fn num_models(vs: Seq<BaseLiteral>) -> Seq<NumModel> {
    vs.map_values(|b: BaseLiteral| b@)
}

/// The views of the input lines.
pub open spec fn input_models(ss: Seq<String>) -> Seq<Seq<char>> {
    ss.map_values(|s: String| s@)
}

/// The environment's values, as models.
pub open spec fn env_model(m: Map<Seq<char>, BaseLiteral>) -> Map<Seq<char>, NumModel> {
    m.map_values(|b: BaseLiteral| b@)
}

// ---------------------------------------------------------------------------
// Trimming an input line
// ---------------------------------------------------------------------------

/// First index at or after `i` holding no whitespace.
pub open spec fn scan_ws(s: Seq<char>, i: int) -> int
    decreases s.len() - i,
        when 0 <= i
{
    if i < s.len() && is_space_char(s[i]) {
        scan_ws(s, i + 1)
    } else {
        i
    }
}

/// Last bound at or before `j` with no whitespace just before it.
pub open spec fn scan_ws_end(s: Seq<char>, j: int) -> int
    decreases j,
        when 0 <= j
{
    if j > 0 && is_space_char(s[j - 1]) {
        scan_ws_end(s, j - 1)
    } else {
        j
    }
}

/// The line with leading and trailing whitespace removed.
pub open spec fn spec_trim(s: Seq<char>) -> Seq<char> {
    let a = scan_ws(s, 0);
    let e = scan_ws_end(s, s.len() as int);
    if a <= e {
        s.subrange(a, e)
    } else {
        Seq::empty()
    }
}

/// Removes leading and trailing whitespace.
fn trim_str(s: &str) -> (r: String)
    ensures
        r@ == spec_trim(s@),
{
    let cs = str_chars(s);
    let n = cs.len();
    let mut a: usize = 0;
    while a < n && is_space_c(cs[a])
        invariant
            0 <= a <= n,
            n == cs@.len(),
            scan_ws(cs@, 0) == scan_ws(cs@, a as int),
        decreases n - a,
    {
        a += 1;
    }
    let mut e: usize = n;
    while e > 0 && is_space_c(cs[e - 1])
        invariant
            0 <= e <= n,
            n == cs@.len(),
            scan_ws_end(cs@, n as int) == scan_ws_end(cs@, e as int),
        decreases e,
    {
        e -= 1;
    }
    if a <= e {
        let v = crate::tokenizer::copy_range(&cs, a, e);
        chars_to_string(&v)
    } else {
        let v: Vec<char> = Vec::new();
        chars_to_string(&v)
    }
}

// ---------------------------------------------------------------------------
// What evaluation yields, mathematically
// ---------------------------------------------------------------------------

/// An arithmetic step: both operands decoded (each in its own radix, left
/// first), the 64-bit operation applied, the result encoded in the left
/// operand's radix. A kind that is no arithmetic operator yields no value.
pub open spec fn spec_apply_op(op: TokenType, a: NumModel, b: NumModel) -> Result<
    Option<NumModel>,
    EvalError,
> {
    if op == TokenType::Plus || op == TokenType::Minus || op == TokenType::Star || op
        == TokenType::Slash {
        match num_decode(a) {
            Err(e) => Err(EvalError::Num(e)),
            Ok(x) => match num_decode(b) {
                Err(e) => Err(EvalError::Num(e)),
                Ok(y) => if op == TokenType::Plus {
                    if x + y > u64::MAX {
                        Err(EvalError::Num(NumError::Overflow))
                    } else {
                        Ok(Some(NumModel { base: a.base, digits: spec_from_int(a.base, x + y) }))
                    }
                } else if op == TokenType::Minus {
                    if x < y {
                        Err(EvalError::Num(NumError::Underflow))
                    } else {
                        Ok(Some(NumModel { base: a.base, digits: spec_from_int(a.base, x - y) }))
                    }
                } else if op == TokenType::Star {
                    if x * y > u64::MAX {
                        Err(EvalError::Num(NumError::Overflow))
                    } else {
                        Ok(Some(NumModel { base: a.base, digits: spec_from_int(a.base, x * y) }))
                    }
                } else {
                    if y == 0 {
                        Err(EvalError::Num(NumError::DivisionByZero))
                    } else {
                        Ok(
                            Some(
                                NumModel {
                                    base: a.base,
                                    digits: spec_from_int(a.base, x as int / y as int),
                                },
                            ),
                        )
                    }
                },
            },
        }
    } else {
        Ok(None)
    }
}

/// One builtin applied to its collected argument values: `out` records the
/// display of its first argument (nothing without one); `in` consumes the
/// next input line (an exhausted input reads as the empty line), trims it
/// and builds a radix-10 numeral from it; `wait` records a pause of its
/// first argument's value in seconds.
pub open spec fn spec_apply_builtin(name: Seq<char>, vals: Seq<NumModel>, ctx: CtxModel) -> (Result<
    Option<NumModel>,
    EvalError,
>, CtxModel) {
    if name == "out"@ {
        if vals.len() > 0 {
            (
                Ok(None),
                CtxModel {
                    effects: ctx.effects.push(
                        EffectModel::Print(num_display(vals[0].base, vals[0].digits)),
                    ),
                    ..ctx
                },
            )
        } else {
            (Ok(None), ctx)
        }
    } else if name == "in"@ {
        let line = if ctx.inputs.len() > 0 {
            ctx.inputs[0]
        } else {
            Seq::empty()
        };
        let rest = if ctx.inputs.len() > 0 {
            ctx.inputs.subrange(1, ctx.inputs.len() as int)
        } else {
            ctx.inputs
        };
        let ctx2 = CtxModel { inputs: rest, ..ctx };
        let digits = spec_lower(spec_trim(line));
        if valid_digits(digits, 10) {
            (Ok(Some(NumModel { base: 10, digits })), ctx2)
        } else {
            (Err(EvalError::Num(NumError::InvalidDigit)), ctx2)
        }
    } else {
        if vals.len() > 0 {
            match num_decode(vals[0]) {
                Err(e) => (Err(EvalError::Num(e)), ctx),
                Ok(secs) => (
                    (Ok(None)),
                    CtxModel { effects: ctx.effects.push(EffectModel::Sleep(secs as int)), ..ctx },
                ),
            }
        } else {
            (Ok(None), ctx)
        }
    }
}

/// What evaluating one node yields, and the state it leaves: literals are
/// their value; a variable reads the environment, silently yielding nothing
/// when unset; an assignment stores its value (a valueless right side is a
/// silent no-op); arithmetic requires both operand values; a call to a
/// registered builtin evaluates its arguments in order, dropping valueless
/// ones, and applies the builtin, while a call to any other name evaluates
/// nothing and yields nothing; `ret` yields its inner expression; a text
/// literal records its printing and yields nothing.
pub open spec fn spec_eval(n: NodeModel, ctx: CtxModel) -> (Result<Option<NumModel>, EvalError>,
    CtxModel,
)
    decreases n, 0int,
{
    match n {
        NodeModel::BaseLiteral { base, digits } => (Ok(Some(NumModel { base, digits })), ctx),
        NodeModel::Var { name } => if ctx.env.dom().contains(name) {
            (Ok(Some(ctx.env[name])), ctx)
        } else {
            (Ok(None), ctx)
        },
        NodeModel::Assign { name, value } => {
            let r = spec_eval(*value, ctx);
            match r.0 {
                Err(e) => (Err(e), r.1),
                Ok(Some(v)) => (Ok(None), CtxModel { env: r.1.env.insert(name, v), ..r.1 }),
                Ok(None) => (Ok(None), r.1),
            }
        },
        NodeModel::BinOp { op, left, right } => {
            let l = spec_eval(*left, ctx);
            match l.0 {
                Err(e) => (Err(e), l.1),
                Ok(None) => (Err(EvalError::MissingOperand), l.1),
                Ok(Some(a)) => {
                    let rr = spec_eval(*right, l.1);
                    match rr.0 {
                        Err(e) => (Err(e), rr.1),
                        Ok(None) => (Err(EvalError::MissingOperand), rr.1),
                        Ok(Some(b)) => (spec_apply_op(op, a, b), rr.1),
                    }
                },
            }
        },
        NodeModel::Call { name, args } => {
            if is_builtin(name) {
                proof {
                    assert(decreases_to!(n, 0int => args, 1int));
                }
                let r = spec_eval_args(args, ctx);
                match r.0 {
                    Err(e) => (Err(e), r.1),
                    Ok(vals) => spec_apply_builtin(name, vals, r.1),
                }
            } else {
                (Ok(None), ctx)
            }
        },
        NodeModel::Return { expr } => spec_eval(*expr, ctx),
        NodeModel::Text { text } => (
            Ok(None),
            CtxModel { effects: ctx.effects.push(EffectModel::Print(text)), ..ctx },
        ),
    }
}

/// Argument evaluation, left to right, collecting the values and dropping
/// the arguments that yield none.
pub open spec fn spec_eval_args(args: Seq<NodeModel>, ctx: CtxModel) -> (Result<
    Seq<NumModel>,
    EvalError,
>, CtxModel)
    decreases args, 1int,
{
    if args.len() == 0 {
        (Ok(Seq::empty()), ctx)
    } else {
        let r = spec_eval(args[0], ctx);
        match r.0 {
            Err(e) => (Err(e), r.1),
            Ok(opt) => {
                let rest = spec_eval_args(args.subrange(1, args.len() as int), r.1);
                match rest.0 {
                    Err(e) => (Err(e), rest.1),
                    Ok(vs) => (
                        Ok(
                            match opt {
                                Some(v) => seq![v] + vs,
                                None => vs,
                            },
                        ),
                        rest.1,
                    ),
                }
            },
        }
    }
}

/// The fresh state a run starts from: an empty environment, no effects, and
/// the given input lines.
pub open spec fn init_ctx(inputs: Seq<Seq<char>>) -> CtxModel {
    CtxModel { env: Map::empty(), effects: Seq::empty(), inputs }
}

/// Statements evaluated in source order, each value discarded, stopping at
/// the first failure.
pub open spec fn spec_run_nodes(ns: Seq<NodeModel>, ctx: CtxModel) -> (CtxModel, Option<EvalError>)
    decreases ns.len(),
{
    if ns.len() == 0 {
        (ctx, None)
    } else {
        let r = spec_eval(ns[0], ctx);
        match r.0 {
            Err(e) => (r.1, Some(e)),
            Ok(_) => spec_run_nodes(ns.subrange(1, ns.len() as int), r.1),
        }
    }
}

} // verus!

verus! {

// ---------------------------------------------------------------------------
// The running state and the walk itself
// ---------------------------------------------------------------------------

/// The mutable state of one run: the variable environment, the effects
/// decided so far, and a cursor over the supplied input lines.
pub struct EvalState {
    pub env: StringHashMap<BaseLiteral>,
    pub effects: Vec<Effect>,
    pub inputs: Vec<String>,
    pub next_input: usize,
}

impl EvalState {
    /// The state's invariant: the input cursor is in range and every stored
    /// value carries a radix in 2..=64.
    pub open spec fn inv(self) -> bool {
        &&& self.next_input <= self.inputs@.len()
        &&& forall|k: Seq<char>|
            self.env@.dom().contains(k) ==> val_wf(#[trigger] self.env@[k]@)
    }

    /// The mathematical state this stands for.
    pub open spec fn ctx(self) -> CtxModel {
        CtxModel {
            env: env_model(self.env@),
            effects: effect_models(self.effects@),
            inputs: input_models(self.inputs@).subrange(
                self.next_input as int,
                self.inputs@.len() as int,
            ),
        }
    }
}

/// A deep copy of a numeral.
fn copy_lit(v: &BaseLiteral) -> (r: BaseLiteral)
    ensures
        r.base == v.base,
        r.raw@ == v.raw@,
        r@ == v@,
{
    BaseLiteral { base: v.base, raw: v.raw.clone() }
}

/// Evaluates one node against the state, as `spec_eval` gives it.
#[verifier::loop_isolation(false)]
#[verifier::rlimit(100)]
fn eval_node(node: &Node, st: &mut EvalState) -> (r: Result<Option<BaseLiteral>, EvalError>)
    requires
        node_wf(node_model(*node)),
        old(st).inv(),
    ensures
        final(st).inv(),
        ({
            let se = spec_eval(node_model(*node), old(st).ctx());
            final(st).ctx() == se.1 && (match se.0 {
                Ok(ov) => r matches Ok(res) && (match ov {
                    Some(nm) => res matches Some(b) && b@ == nm && val_wf(nm),
                    None => res is None,
                }),
                Err(e) => r == Err::<Option<BaseLiteral>, EvalError>(e),
            })
        }),
    decreases *node, 0int,
{
    match node {
        Node::BaseLiteral(b) => Ok(Some(copy_lit(b))),
        Node::Var(name) => {
            match st.env.get(name.as_str()) {
                Some(v) => {
                    proof {
                        assert(env_model(st.env@)[name@] == st.env@[name@]@);
                    }
                    Ok(Some(copy_lit(v)))
                },
                None => Ok(None),
            }
        },
        Node::Assign { name, value } => {
            match eval_node(&**value, st) {
                Err(e) => Err(e),
                Ok(Some(v)) => {
                    let ghost pre = st.env@;
                    st.env.insert(name.clone(), v);
                    proof {
                        assert(env_model(st.env@) =~= env_model(pre).insert(name@, v@));
                    }
                    Ok(None)
                },
                Ok(None) => Ok(None),
            }
        },
        Node::BinOp { op, left, right } => {
            let l = match eval_node(&**left, st) {
                Ok(v) => v,
                Err(e) => {
                    return Err(e);
                },
            };
            let a = match l {
                Some(a) => a,
                None => {
                    return Err(EvalError::MissingOperand);
                },
            };
            let rv = match eval_node(&**right, st) {
                Ok(v) => v,
                Err(e) => {
                    return Err(e);
                },
            };
            let b = match rv {
                Some(b) => b,
                None => {
                    return Err(EvalError::MissingOperand);
                },
            };
            if *op == TokenType::Plus {
                match a.add(&b) {
                    Ok(v) => Ok(Some(v)),
                    Err(e) => Err(EvalError::Num(e)),
                }
            } else if *op == TokenType::Minus {
                match a.sub(&b) {
                    Ok(v) => Ok(Some(v)),
                    Err(e) => Err(EvalError::Num(e)),
                }
            } else if *op == TokenType::Star {
                match a.mul(&b) {
                    Ok(v) => Ok(Some(v)),
                    Err(e) => Err(EvalError::Num(e)),
                }
            } else if *op == TokenType::Slash {
                match a.div(&b) {
                    Ok(v) => Ok(Some(v)),
                    Err(e) => Err(EvalError::Num(e)),
                }
            } else {
                Ok(None)
            }
        },
        Node::Call { name, args } => {
            match builtin_of(name) {
                None => Ok(None),
                Some(which) => {
                    let vals = match eval_args(args, st) {
                        Ok(v) => v,
                        Err(e) => {
                            return Err(e);
                        },
                    };
                    match which {
                        Builtin::Out => {
                            if vals.len() > 0 {
                                let ghost pre = st.effects@;
                                let text = vals[0].display();
                                st.effects.push(Effect::Print(text));
                                proof {
                                    lemma_effect_models_push(pre, Effect::Print(text));
                                }
                            }
                            Ok(None)
                        },
                        Builtin::In => {
                            let ghost ctx0 = st.ctx();
                            let ghost ni = st.next_input as int;
                            let line: String = if st.next_input < st.inputs.len() {
                                let l = st.inputs[st.next_input].clone();
                                st.next_input = st.next_input + 1;
                                l
                            } else {
                                String::new()
                            };
                            proof {
                                if ctx0.inputs.len() > 0 {
                                    assert(ctx0.inputs[0] == input_models(st.inputs@)[ni]);
                                    assert(input_models(st.inputs@)[ni] == st.inputs@[ni]@);
                                    assert(line@ == ctx0.inputs[0]);
                                    assert(st.ctx().inputs =~= ctx0.inputs.subrange(
                                        1,
                                        ctx0.inputs.len() as int,
                                    ));
                                } else {
                                    assert(line@ =~= Seq::<char>::empty());
                                }
                            }
                            let trimmed = trim_str(line.as_str());
                            match BaseLiteral::new(10, trimmed.as_str()) {
                                Ok(v) => Ok(Some(v)),
                                Err(_) => Err(EvalError::Num(NumError::InvalidDigit)),
                            }
                        },
                        Builtin::Wait => {
                            if vals.len() > 0 {
                                match vals[0].to_int() {
                                    Ok(secs) => {
                                        let ghost pre = st.effects@;
                                        st.effects.push(Effect::Sleep(secs));
                                        proof {
                                            lemma_effect_models_push(pre, Effect::Sleep(secs));
                                        }
                                        Ok(None)
                                    },
                                    Err(e) => Err(EvalError::Num(e)),
                                }
                            } else {
                                Ok(None)
                            }
                        },
                    }
                },
            }
        },
        Node::Return(e) => eval_node(&**e, st),
        Node::Text(t) => {
            let ghost pre = st.effects@;
            let text = t.clone();
            st.effects.push(Effect::Print(text));
            proof {
                lemma_effect_models_push(pre, Effect::Print(text));
            }
            Ok(None)
        },
    }
}

/// Evaluates a call's arguments in order, collecting the values and
/// dropping the arguments that yield none, as `spec_eval_args` gives it.
#[verifier::loop_isolation(false)]
#[verifier::rlimit(100)]
fn eval_args(args: &Vec<Node>, st: &mut EvalState) -> (r: Result<Vec<BaseLiteral>, EvalError>)
    requires
        nodes_wf(node_models(args@)),
        old(st).inv(),
    ensures
        final(st).inv(),
        ({
            let se = spec_eval_args(node_models(args@), old(st).ctx());
            final(st).ctx() == se.1 && (match se.0 {
                Ok(vs) => r matches Ok(out) && num_models(out@) == vs && (forall|i: int|
                    0 <= i < vs.len() ==> val_wf(#[trigger] vs[i])),
                Err(e) => r == Err::<Vec<BaseLiteral>, EvalError>(e),
            })
        }),
    decreases *args, 1int,
{
    let ghost full = node_models(args@);
    let ghost se = spec_eval_args(full, old(st).ctx());
    proof {
        crate::ast::lemma_node_models(args@);
        lemma_nodes_wf_index(full);
    }
    let mut vals: Vec<BaseLiteral> = Vec::new();
    proof {
        assert(full.subrange(0, full.len() as int) =~= full);
        assert(num_models(vals@) =~= Seq::<NumModel>::empty());
        if se.0 is Ok {
            assert(Seq::<NumModel>::empty() + se.0->Ok_0 =~= se.0->Ok_0);
        }
    }
    let n = args.len();
    let mut k: usize = 0;
    while k < n
        invariant
            n == args@.len(),
            k <= n,
            st.inv(),
            forall|i: int| 0 <= i < num_models(vals@).len() ==> val_wf(
                #[trigger] num_models(vals@)[i],
            ),
            ({
                let rem = spec_eval_args(full.subrange(k as int, full.len() as int), st.ctx());
                se.1 == rem.1 && (match rem.0 {
                    Ok(ws) => se.0 == Ok::<Seq<NumModel>, EvalError>(num_models(vals@) + ws),
                    Err(e) => se.0 == Err::<Seq<NumModel>, EvalError>(e),
                })
            }),
        decreases n - k,
    {
        let ghost rem_pre = full.subrange(k as int, full.len() as int);
        proof {
            assert(decreases_to!(*args => args@));
            assert(decreases_to!(args@ => args@[k as int]));
            assert(rem_pre[0] == full[k as int]);
            assert(rem_pre.subrange(1, rem_pre.len() as int) =~= full.subrange(
                k + 1 as int,
                full.len() as int,
            ));
        }
        let rv = match eval_node(&args[k], st) {
            Ok(v) => v,
            Err(e) => {
                return Err(e);
            },
        };
        if let Some(v) = rv {
            let ghost vs0 = vals@;
            vals.push(v);
            proof {
                assert(num_models(vals@) =~= num_models(vs0).push(v@));
                assert(num_models(vs0).push(v@) + spec_eval_args(
                    full.subrange(k + 1 as int, full.len() as int),
                    st.ctx(),
                ).0->Ok_0 =~= num_models(vs0) + (seq![v@] + spec_eval_args(
                    full.subrange(k + 1 as int, full.len() as int),
                    st.ctx(),
                ).0->Ok_0));
            }
        }
        k += 1;
    }
    proof {
        assert(full.subrange(n as int, full.len() as int) =~= Seq::<NodeModel>::empty());
        assert(num_models(vals@) + Seq::<NumModel>::empty() =~= num_models(vals@));
    }
    Ok(vals)
}

} // verus!

verus! {

/// What one run produced: the effects it decided on, in order, and the
/// failure that stopped it, if one did. Effects decided before the failure
/// stand: evaluation is statement by statement.
#[derive(Debug, Clone, PartialEq, Eq)]
pub struct EvalOutcome {
    pub effects: Vec<Effect>,
    pub error: Option<EvalError>,
}

/// Evaluates the top-level nodes in source order against a fresh
/// environment, discarding each node's value, stopping at the first
/// failure; the given lines serve the `in` builtin. The outcome is exactly
/// `spec_run_nodes` over the nodes' models.
#[verifier::loop_isolation(false)]
pub fn evaluate(nodes: &Vec<Node>, inputs: Vec<String>) -> (r: EvalOutcome)
    requires
        nodes_wf(node_models(nodes@)),
    ensures
        ({
            let out = spec_run_nodes(node_models(nodes@), init_ctx(input_models(inputs@)));
            effect_models(r.effects@) == out.0.effects && r.error == out.1
        }),
{
    let ghost full = node_models(nodes@);
    let ghost out = spec_run_nodes(full, init_ctx(input_models(inputs@)));
    let mut st = EvalState {
        env: StringHashMap::new(),
        effects: Vec::new(),
        inputs,
        next_input: 0,
    };
    proof {
        crate::ast::lemma_node_models(nodes@);
        lemma_nodes_wf_index(full);
        assert(env_model(st.env@) =~= Map::<Seq<char>, NumModel>::empty());
        assert(effect_models(st.effects@) =~= Seq::<EffectModel>::empty());
        assert(st.ctx().inputs =~= input_models(st.inputs@));
        assert(full.subrange(0, full.len() as int) =~= full);
    }
    let n = nodes.len();
    let mut k: usize = 0;
    while k < n
        invariant
            n == nodes@.len(),
            k <= n,
            st.inv(),
            out == spec_run_nodes(full.subrange(k as int, full.len() as int), st.ctx()),
        decreases n - k,
    {
        let ghost rem = full.subrange(k as int, full.len() as int);
        proof {
            assert(rem[0] == full[k as int]);
            assert(rem.subrange(1, rem.len() as int) =~= full.subrange(
                k + 1 as int,
                full.len() as int,
            ));
        }
        match eval_node(&nodes[k], &mut st) {
            Ok(_) => {},
            Err(e) => {
                return EvalOutcome { effects: st.effects, error: Some(e) };
            },
        }
        k += 1;
    }
    proof {
        assert(full.subrange(n as int, full.len() as int) =~= Seq::<NodeModel>::empty());
    }
    EvalOutcome { effects: st.effects, error: None }
}

/// Why a run never reached evaluation: the scanner refused a written radix,
/// or the parser met an unexpected token.
#[derive(Debug, Clone, Copy, PartialEq, Eq, Structural)]
pub enum RunError {
    Lex(LexError),
    Parse(ParseError),
}

/// The whole pipeline on one source text: scan, parse, evaluate. The
/// outcome is pinned stage by stage: the scan's failure offset, the parse's
/// offending token, or the evaluation's effects and stopping error, each as
/// the stage's own specification gives it.
pub fn run_source(source: &str, inputs: Vec<String>) -> (r: Result<EvalOutcome, RunError>)
    ensures
        match spec_tokenize(source@) {
            LexOut::Fail(p) => r matches Err(RunError::Lex(LexError::InvalidBase { pos }))
                && pos as int == p,
            LexOut::Toks(ts) => match spec_parse_stmts(ts, 0) {
                ParseOut::Fail { found, pos } => r matches Err(
                    RunError::Parse(ParseError::UnexpectedToken { found: f, pos: q }),
                ) && f == found && q as int == pos,
                ParseOut::Nodes(ns) => ({
                    let out = spec_run_nodes(ns, init_ctx(input_models(inputs@)));
                    r matches Ok(oc) && effect_models(oc.effects@) == out.0.effects && oc.error
                        == out.1
                }),
            },
        },
{
    let toks = match tokenize(source) {
        Ok(t) => t,
        Err(e) => {
            return Err(RunError::Lex(e));
        },
    };
    let mut parser = Parser::new(toks);
    let nodes = match parser.parse() {
        Ok(n) => n,
        Err(e) => {
            return Err(RunError::Parse(e));
        },
    };
    Ok(evaluate(&nodes, inputs))
}

} // verus!
