use vstd::prelude::*;
use vstd::string::StringExecFns;

use crate::datastore::{in_range, Datastore};
use crate::datatype::{DataType, QueryError};
use crate::lexer::{lex_from, tokenize, toks_of, BinOp};
use crate::models::{Event, TimeInterval};
use crate::number::{ArithError, Number};
use crate::parser::{p_stmts, parse, stmts_model, Expr, Stmt};
use crate::text::chars_of;

verus! {

broadcast use vstd::std_specs::vec::group_vec_axioms;

/// `a` and `b` are the same script value: equal scalars, equal texts, and
/// lists and dictionaries equal entry by entry.
pub open spec fn same_value(a: DataType, b: DataType) -> bool
    decreases a,
{
    match a {
        DataType::String(s) => b matches DataType::String(t) && s@ == t@,
        DataType::Function(s) => b matches DataType::Function(t) && s@ == t@,
        DataType::List(x) => b matches DataType::List(y) && same_values(x@, y@),
        DataType::Dict(k, x) => b matches DataType::Dict(k2, y) && same_keys(k@, k2@) && same_values(x@, y@),
        _ => a == b,
    }
}

/// Entry by entry, `same_value`.
pub open spec fn same_values(x: Seq<DataType>, y: Seq<DataType>) -> bool
    decreases x,
{
    &&& x.len() == y.len()
    &&& forall|i: int| 0 <= i < x.len() ==> same_value(#[trigger] x[i], y[i])
}

/// The same texts, in the same order.
pub open spec fn same_keys(x: Seq<String>, y: Seq<String>) -> bool {
    &&& x.len() == y.len()
    &&& forall|i: int| 0 <= i < x.len() ==> (#[trigger] x[i])@ == y[i]@
}

impl DataType {
    /// A deep copy.
    pub fn duplicate(&self) -> (r: DataType)
        ensures
            same_value(*self, r),
        decreases self,
    {
        match self {
            DataType::Null => DataType::Null,
            DataType::Bool(b) => DataType::Bool(*b),
            DataType::Number(n) => DataType::Number(*n),
            DataType::String(s) => DataType::String(s.clone()),
            DataType::Function(f) => DataType::Function(f.clone()),
            DataType::List(items) => DataType::List(duplicate_all(items)),
            DataType::Dict(keys, values) => DataType::Dict(copy_keys(keys), duplicate_all(values)),
        }
    }
}

fn duplicate_all(items: &Vec<DataType>) -> (r: Vec<DataType>)
    ensures
        same_values(items@, r@),
    decreases items,
{
    let mut out: Vec<DataType> = Vec::new();
    let mut i: usize = 0;
    while i < items.len()
        invariant
            i <= items@.len(),
            out@.len() == i,
            forall|k: int| 0 <= k < i ==> same_value(#[trigger] items@[k], out@[k]),
        decreases items@.len() - i,
    {
        proof {
            assert(decreases_to!(items => items@[i as int]));
        }
        out.push(items[i].duplicate());
        i += 1;
    }
    out
}

fn copy_keys(keys: &Vec<String>) -> (r: Vec<String>)
    ensures
        same_keys(keys@, r@),
{
    let mut out: Vec<String> = Vec::new();
    let mut i: usize = 0;
    while i < keys.len()
        invariant
            i <= keys@.len(),
            out@.len() == i,
            forall|k: int| 0 <= k < i ==> (#[trigger] keys@[k])@ == out@[k]@,
        decreases keys@.len() - i,
    {
        out.push(keys[i].clone());
        i += 1;
    }
    out
}

/// A built-in function of the query language.
#[derive(Clone, Copy, Debug, PartialEq, Eq, Structural)]
pub enum Builtin {
    /// `print(value)`: a diagnostic that evaluates to `Null`. Its output is
    /// a log line in the host, which the library does not write.
    Print,
    /// `query_bucket(id)`: the events of bucket `id` in the current interval.
    QueryBucket,
}

/// The built-in called `name`, if any.
pub open spec fn builtin_named(name: Seq<char>) -> Option<Builtin> {
    if name == "print"@ {
        Some(Builtin::Print)
    } else if name == "query_bucket"@ {
        Some(Builtin::QueryBucket)
    } else {
        None
    }
}

fn find_builtin(name: &String) -> (r: Option<Builtin>)
    ensures
        r == builtin_named(name@),
{
    if *name == String::from_str("print") {
        Some(Builtin::Print)
    } else if *name == String::from_str("query_bucket") {
        Some(Builtin::QueryBucket)
    } else {
        None
    }
}

/// A variable of a running script.
#[derive(Debug)]
pub struct Binding {
    pub name: String,
    pub value: DataType,
}

/// The position of the first binding of `name`.
pub open spec fn var_index(env: Seq<Binding>, name: Seq<char>) -> Option<int>
    decreases env.len(),
{
    if env.len() == 0 {
        None
    } else if env[0].name@ == name {
        Some(0)
    } else {
        match var_index(env.subrange(1, env.len() as int), name) {
            Some(i) => Some(i + 1),
            None => None,
        }
    }
}

/// The value bound to `name`: that of its first binding.
pub open spec fn lookup(env: Seq<Binding>, name: Seq<char>) -> Option<DataType> {
    match var_index(env, name) {
        Some(i) => Some(env[i].value),
        None => None,
    }
}

/// `env` with `name` bound to `v`: its binding replaced, or a new one added
/// at the end.
pub open spec fn bound(env: Seq<Binding>, name: String, v: DataType) -> Seq<Binding> {
    match var_index(env, name@) {
        Some(i) => env.update(i, Binding { name, value: v }),
        None => env.push(Binding { name, value: v }),
    }
}

proof fn lemma_var_index(env: Seq<Binding>, name: Seq<char>)
    ensures
        var_index(env, name) matches Some(i) ==> 0 <= i < env.len() && env[i].name@ == name,
    decreases env.len(),
{
    if env.len() > 0 && env[0].name@ != name {
        let rest = env.subrange(1, env.len() as int);
        lemma_var_index(rest, name);
    }
}

fn find_var(env: &Vec<Binding>, name: &String) -> (r: Option<usize>)
    ensures
        r is None ==> var_index(env@, name@) is None,
        r matches Some(i) ==> var_index(env@, name@) == Some(i as int) && i < env@.len(),
{
    let mut i: usize = 0;
    proof {
        assert(env@.subrange(0, env@.len() as int) =~= env@);
    }
    while i < env.len()
        invariant
            i <= env@.len(),
            var_index(env@, name@) == match var_index(env@.subrange(i as int, env@.len() as int), name@) {
                Some(j) => Some(j + i),
                None => None::<int>,
            },
        decreases env@.len() - i,
    {
        proof {
            let rest = env@.subrange(i as int, env@.len() as int);
            assert(rest.subrange(1, rest.len() as int) =~= env@.subrange(i + 1, env@.len() as int));
            assert(rest[0] == env@[i as int]);
        }
        if env[i].name == *name {
            return Some(i);
        }
        i += 1;
    }
    None
}

/// Binds `name` to `value`, replacing an earlier binding of that name.
fn bind(env: &mut Vec<Binding>, name: String, value: DataType)
    ensures
        final(env)@ == bound(old(env)@, name, value),
{
    match find_var(env, &name) {
        Some(i) => {
            env.set(i, Binding { name, value });
        },
        None => env.push(Binding { name, value }),
    }
}

fn named_error(name: &String) -> (r: String)
    ensures
        r@ == name@,
{
    name.clone()
}

/// Resolves the callee of `name(...)`: a binding of `name` comes first,
/// and must hold a function; an unbound name must be a built-in.
pub fn resolve(env: &Vec<Binding>, name: &String) -> (r: Result<Builtin, QueryError>)
    ensures
        callee(env@, name@) matches Some(b) ==> r == Ok::<Builtin, QueryError>(b),
        callee(env@, name@) is None ==> (r matches Err(e) && callee_error(env@, name@, e)),
{
    match find_var(env, name) {
        None => match find_builtin(name) {
            Some(b) => Ok(b),
            None => Err(QueryError::VariableNotDefined(named_error(name))),
        },
        Some(i) => match &env[i].value {
            DataType::Function(f) => match find_builtin(f) {
                Some(b) => Ok(b),
                None => Err(QueryError::VariableNotDefined(named_error(f))),
            },
            _ => Err(QueryError::InvalidType(named_error(name))),
        },
    }
}

/// The exact result of `x op y` on numbers.
pub open spec fn arith(op: BinOp, x: Number, y: Number) -> Result<Number, ArithError> {
    match op {
        BinOp::Add => crate::number::checked(x.num * y.den + y.num * x.den, x.den * y.den),
        BinOp::Sub => crate::number::checked(x.num * y.den - y.num * x.den, x.den * y.den),
        BinOp::Mul => crate::number::checked(x.num * y.num, x.den * y.den),
        BinOp::Div => if y.num == 0 {
            Err(ArithError::DivisionByZero)
        } else if y.num > 0 {
            crate::number::checked(x.num * y.den, x.den * y.num)
        } else {
            crate::number::checked(-(x.num * y.den), -(x.den * y.num))
        },
        BinOp::Rem => if y.num == 0 {
            Err(ArithError::DivisionByZero)
        } else {
            crate::number::checked(crate::number::trunc_rem(x.num * y.den, x.den * y.num), x.den * y.den)
        },
    }
}

fn math_error(e: ArithError) -> (r: QueryError)
    ensures
        r is MathError,
{
    match e {
        ArithError::DivisionByZero => QueryError::MathError(String::from_str("division by zero")),
        ArithError::Overflow => QueryError::MathError(String::from_str("number out of range")),
    }
}

/// What `a op b` gives: on two well-formed numbers the exact result, or a
/// `MathError` for a zero divisor or a result out of range; on anything
/// else a type error.
pub open spec fn op_result(op: BinOp, a: DataType, b: DataType, r: Result<DataType, QueryError>) -> bool {
    match (a, b) {
        (DataType::Number(x), DataType::Number(y)) => if x.wf() && y.wf() {
            match arith(op, x, y) {
                Ok(n) => r == Ok::<DataType, QueryError>(DataType::Number(n)),
                Err(_) => r matches Err(QueryError::MathError(_)),
            }
        } else {
            r matches Err(QueryError::MathError(_))
        },
        _ => r matches Err(QueryError::InvalidType(_)),
    }
}

/// Applies an arithmetic operator. Both operands must be numbers; the
/// result is exact, and a zero divisor or a result out of range is a
/// `MathError`.
pub fn apply_op(op: BinOp, a: &DataType, b: &DataType) -> (r: Result<DataType, QueryError>)
    ensures
        op_result(op, *a, *b, r),
{
    match (a, b) {
        (DataType::Number(x), DataType::Number(y)) => {
            if x.den <= 0 || y.den <= 0 {
                return Err(QueryError::MathError(String::from_str("malformed number")));
            }
            let res = match op {
                BinOp::Add => Number::add(*x, *y),
                BinOp::Sub => Number::sub(*x, *y),
                BinOp::Mul => Number::mul(*x, *y),
                BinOp::Div => Number::div(*x, *y),
                BinOp::Rem => Number::rem(*x, *y),
            };
            match res {
                Ok(n) => Ok(DataType::Number(n)),
                Err(e) => Err(math_error(e)),
            }
        },
        _ => Err(QueryError::InvalidType(String::from_str("arithmetic operand"))),
    }
}

const NANOS_PER_SECOND: i64 = 1_000_000_000;

/// `v` is the script value of stored event `e`: a dictionary of its `id`,
/// `timestamp` and `duration` (in seconds, exact) and its `data` text.
pub open spec fn event_value(v: DataType, e: Event) -> bool {
    v matches DataType::Dict(keys, vals) && {
        &&& keys@.len() == 4
        &&& vals@.len() == 4
        &&& keys@[0]@ == "id"@
        &&& vals@[0] == DataType::Number(Number { num: e.id->0, den: 1 })
        &&& keys@[1]@ == "timestamp"@
        &&& vals@[1] == DataType::Number(Number { num: e.timestamp, den: 1_000_000_000 })
        &&& keys@[2]@ == "duration"@
        &&& vals@[2] == DataType::Number(Number { num: e.duration, den: 1_000_000_000 })
        &&& keys@[3]@ == "data"@
        &&& vals@[3] matches DataType::String(s) && s@ == e.data@
    }
}

/// `v` is a list of the script values of `es`, in order.
pub open spec fn events_value(v: DataType, es: Seq<Event>) -> bool {
    v matches DataType::List(items) && {
        &&& items@.len() == es.len()
        &&& forall|i: int| 0 <= i < es.len() ==> event_value(#[trigger] items@[i], es[i])
    }
}

fn event_to_value(e: &Event) -> (r: DataType)
    requires
        e.id is Some,
    ensures
        event_value(r, *e),
{
    let mut keys: Vec<String> = Vec::new();
    let mut vals: Vec<DataType> = Vec::new();
    keys.push(String::from_str("id"));
    vals.push(DataType::Number(Number { num: match e.id { Some(i) => i, None => 0 }, den: 1 }));
    keys.push(String::from_str("timestamp"));
    vals.push(DataType::Number(Number { num: e.timestamp, den: NANOS_PER_SECOND }));
    keys.push(String::from_str("duration"));
    vals.push(DataType::Number(Number { num: e.duration, den: NANOS_PER_SECOND }));
    keys.push(String::from_str("data"));
    vals.push(DataType::String(e.data.clone()));
    proof {
        assert(e.id is Some ==> vals@[0] == DataType::Number(Number { num: e.id->0, den: 1 }));
    }
    DataType::Dict(keys, vals)
}

/// The events of bucket `id` that meet interval `ti`, newest-first, as
/// script values.
pub fn query_bucket(id: &String, ti: &TimeInterval, ds: &Datastore) -> (r: Result<DataType, QueryError>)
    requires
        ds.wf(),
    ensures
        r is Err <==> !ds.has_bucket(id@),
        r matches Err(e) ==> e is BucketQueryError,
        r matches Ok(v) ==> events_value(v, in_range(ds.events_of(id@), Some(ti.start), Some(ti.end))),
{
    let events = match ds.get_events(id, Some(ti.start), Some(ti.end), None) {
        Ok(es) => es,
        Err(_) => return Err(QueryError::BucketQueryError(named_error(id))),
    };
    proof {
        ds.lemma_events_wf(id@);
        assert forall|i: int| 0 <= i < events@.len() implies (#[trigger] events@[i]).id is Some by {
            let s = ds.events_of(id@);
            let pred = |e: Event| e.meets(Some(ti.start), Some(ti.end));
            s.lemma_filter_contains_rev(pred, events@[i]);
            assert(events@.contains(events@[i]));
        }
    }
    let mut items: Vec<DataType> = Vec::new();
    let mut i: usize = 0;
    while i < events.len()
        invariant
            i <= events@.len(),
            items@.len() == i,
            forall|k: int| 0 <= k < i ==> event_value(#[trigger] items@[k], events@[k]),
            forall|k: int| 0 <= k < events@.len() ==> (#[trigger] events@[k]).id is Some,
        decreases events@.len() - i,
    {
        items.push(event_to_value(&events[i]));
        i += 1;
    }
    Ok(DataType::List(items))
}

/// What built-in `b` gives on `args` over interval `ti`.
pub open spec fn call_result(
    b: Builtin,
    args: Seq<DataType>,
    ti: TimeInterval,
    ds: Datastore,
    r: Result<DataType, QueryError>,
) -> bool {
    match b {
        Builtin::Print => if args.len() == 1 {
            r == Ok::<DataType, QueryError>(DataType::Null)
        } else {
            r matches Err(QueryError::InvalidFunctionParameters(_))
        },
        Builtin::QueryBucket => if args.len() == 1 && args[0] is String {
            let id = args[0]->String_0@;
            if ds.has_bucket(id) {
                r matches Ok(v) && events_value(v, in_range(ds.events_of(id), Some(ti.start), Some(ti.end)))
            } else {
                r matches Err(QueryError::BucketQueryError(_))
            }
        } else {
            r matches Err(QueryError::InvalidFunctionParameters(_))
        },
    }
}

/// Calls built-in `b` on `args` over interval `ti`.
pub fn call_builtin(b: Builtin, args: &Vec<DataType>, ti: &TimeInterval, ds: &Datastore) -> (r: Result<DataType, QueryError>)
    requires
        ds.wf(),
    ensures
        call_result(b, args@, *ti, *ds, r),
{
    match b {
        Builtin::Print => if args.len() == 1 {
            Ok(DataType::Null)
        } else {
            Err(QueryError::InvalidFunctionParameters(String::from_str("print")))
        },
        Builtin::QueryBucket => {
            if args.len() != 1 {
                return Err(QueryError::InvalidFunctionParameters(String::from_str("query_bucket")));
            }
            match &args[0] {
                DataType::String(id) => query_bucket(id, ti, ds),
                _ => Err(QueryError::InvalidFunctionParameters(String::from_str("query_bucket"))),
            }
        },
    }
}

/// The built-in that a call of `name` reaches, if any: a binding of `name`
/// comes first and must hold a function; an unbound name must be a
/// built-in.
pub open spec fn callee(env: Seq<Binding>, name: Seq<char>) -> Option<Builtin> {
    match lookup(env, name) {
        None => builtin_named(name),
        Some(DataType::Function(f)) => builtin_named(f@),
        Some(_) => None,
    }
}

/// The error of a call of `name` that reaches no built-in.
pub open spec fn callee_error(env: Seq<Binding>, name: Seq<char>, e: QueryError) -> bool {
    match lookup(env, name) {
        None => e matches QueryError::VariableNotDefined(n) && n@ == name,
        Some(DataType::Function(f)) => e matches QueryError::VariableNotDefined(n) && n@ == f@,
        Some(_) => e matches QueryError::InvalidType(n) && n@ == name,
    }
}

/// Always true. It marks the intermediate values that the evaluation
/// rules quantify over, as the trigger of those quantifiers: a trigger on
/// the recursive `evals` itself would not fire inside its own definition.
pub open spec fn step(v: DataType) -> bool {
    true
}

/// Always true; the trigger for quantifiers over lists of intermediate
/// values, for the same reason as `step`.
pub open spec fn steps(vs: Seq<DataType>) -> bool {
    true
}

/// Evaluating `items` in order: all values, or the error of the first item
/// that fails.
pub open spec fn evals_all(
    items: Seq<Expr>,
    env: Seq<Binding>,
    ti: TimeInterval,
    ds: Datastore,
    r: Result<Seq<DataType>, QueryError>,
) -> bool
    decreases items,
{
    match r {
        Ok(vs) => vs.len() == items.len() && forall|i: int|
            0 <= i < items.len() ==> evals(#[trigger] items[i], env, ti, ds, Ok(vs[i])),
        Err(e) => exists|k: int, vs: Seq<DataType>|
            #![trigger items[k], steps(vs)]
            steps(vs) && 0 <= k < items.len() && vs.len() == k && (forall|j: int|
                0 <= j < k ==> evals(#[trigger] items[j], env, ti, ds, Ok(vs[j])))
                && evals(items[k], env, ti, ds, Err(e)),
    }
}

/// Expression `e` evaluates to `r` with bindings `env`, over interval `ti`
/// of store `ds`. Operands and arguments are evaluated left to right, and
/// the first error is the result.
pub open spec fn evals(e: Expr, env: Seq<Binding>, ti: TimeInterval, ds: Datastore, r: Result<DataType, QueryError>) -> bool
    decreases e,
{
    match e {
        Expr::Number(n) => r == Ok::<DataType, QueryError>(DataType::Number(n)),
        Expr::Str(s) => r matches Ok(DataType::String(t)) && t@ == s@,
        Expr::Var(name) => match lookup(env, name@) {
            Some(v) => r matches Ok(w) && same_value(v, w),
            None => match builtin_named(name@) {
                Some(_) => r matches Ok(DataType::Function(f)) && f@ == name@,
                None => r matches Err(QueryError::VariableNotDefined(n)) && n@ == name@,
            },
        },
        Expr::List(items) => match r {
            Ok(v) => v matches DataType::List(vs) && evals_all(items@, env, ti, ds, Ok(vs@)),
            Err(err) => evals_all(items@, env, ti, ds, Err(err)),
        },
        Expr::Dict(keys, vals) => match r {
            Ok(v) => v matches DataType::Dict(ks, vs) && same_keys(keys@, ks@) && evals_all(vals@, env, ti, ds, Ok(vs@)),
            Err(err) => evals_all(vals@, env, ti, ds, Err(err)),
        },
        Expr::Call(name, args) => match callee(env, name@) {
            None => r matches Err(err) && callee_error(env, name@, err),
            Some(b) => (r matches Err(err) && evals_all(args@, env, ti, ds, Err(err)))
                || exists|vs: Seq<DataType>| #[trigger] steps(vs) && evals_all(args@, env, ti, ds, Ok(vs))
                    && call_result(b, vs, ti, ds, r),
        },
        Expr::Bin(op, l, rhs) => (r is Err && evals(*l, env, ti, ds, r))
            || exists|x: DataType| #[trigger] step(x) && evals(*l, env, ti, ds, Ok(x)) && (
                (r is Err && evals(*rhs, env, ti, ds, r))
                || exists|y: DataType| #[trigger] step(y) && evals(*rhs, env, ti, ds, Ok(y)) && op_result(op, x, y, r)),
    }
}

/// Statements `stmts` run to `r` from bindings `env`, `last` being the value
/// of the statement before them: `return` ends the run with its value, an
/// assignment binds and has the value `Null`, and the first error ends the
/// run.
pub open spec fn runs(
    stmts: Seq<Stmt>,
    env: Seq<Binding>,
    last: DataType,
    ti: TimeInterval,
    ds: Datastore,
    r: Result<DataType, QueryError>,
) -> bool
    decreases stmts.len(),
{
    if stmts.len() == 0 {
        r matches Ok(v) && same_value(last, v)
    } else {
        let rest = stmts.subrange(1, stmts.len() as int);
        match stmts[0] {
            Stmt::Return(e) => evals(e, env, ti, ds, r),
            Stmt::Assign(name, e) => (r is Err && evals(e, env, ti, ds, r))
                || exists|v: DataType| #[trigger] step(v) && evals(e, env, ti, ds, Ok(v))
                    && runs(rest, bound(env, name, v), DataType::Null, ti, ds, r),
            Stmt::Eval(e) => (r is Err && evals(e, env, ti, ds, r))
                || exists|v: DataType| #[trigger] step(v) && evals(e, env, ti, ds, Ok(v)) && runs(rest, env, v, ti, ds, r),
        }
    }
}

proof fn lemma_same_value_refl(a: DataType)
    ensures
        same_value(a, a),
    decreases a,
{
    match a {
        DataType::List(x) => {
            assert forall|i: int| 0 <= i < x@.len() implies same_value(#[trigger] x@[i], x@[i]) by {
                assert(decreases_to!(x => x@[i]));
                lemma_same_value_refl(x@[i]);
            }
        },
        DataType::Dict(k, x) => {
            assert forall|i: int| 0 <= i < x@.len() implies same_value(#[trigger] x@[i], x@[i]) by {
                assert(decreases_to!(x => x@[i]));
                lemma_same_value_refl(x@[i]);
            }
        },
        _ => {},
    }
}

fn eval_all(items: &Vec<Expr>, env: &Vec<Binding>, ti: &TimeInterval, ds: &Datastore) -> (r: Result<Vec<DataType>, QueryError>)
    requires
        ds.wf(),
    ensures
        r matches Ok(vs) ==> evals_all(items@, env@, *ti, *ds, Ok(vs@)),
        r matches Err(err) ==> evals_all(items@, env@, *ti, *ds, Err(err)),
    decreases items,
{
    let mut out: Vec<DataType> = Vec::new();
    let mut i: usize = 0;
    while i < items.len()
        invariant
            ds.wf(),
            i <= items@.len(),
            out@.len() == i,
            forall|k: int| 0 <= k < i ==> evals(#[trigger] items@[k], env@, *ti, *ds, Ok(out@[k])),
        decreases items@.len() - i,
    {
        proof {
            assert(decreases_to!(items => items@[i as int]));
        }
        match eval_expr(&items[i], env, ti, ds) {
            Ok(v) => out.push(v),
            Err(e) => {
                proof {
                    assert(evals(items@[i as int], env@, *ti, *ds, Err(e)));
                    assert(steps(out@));
                    assert(evals_all(items@, env@, *ti, *ds, Err(e)));
                }
                return Err(e);
            },
        }
        i += 1;
    }
    Ok(out)
}

proof fn lemma_bin_right_fails(
    op: BinOp,
    l: Box<Expr>,
    rhs: Box<Expr>,
    env: Seq<Binding>,
    ti: TimeInterval,
    ds: Datastore,
    x: DataType,
    err: QueryError,
)
    requires
        evals(*l, env, ti, ds, Ok(x)),
        evals(*rhs, env, ti, ds, Err(err)),
    ensures
        evals(Expr::Bin(op, l, rhs), env, ti, ds, Err(err)),
{
    assert(step(x));
}

proof fn lemma_bin_applies(
    op: BinOp,
    l: Box<Expr>,
    rhs: Box<Expr>,
    env: Seq<Binding>,
    ti: TimeInterval,
    ds: Datastore,
    x: DataType,
    y: DataType,
    r: Result<DataType, QueryError>,
)
    requires
        evals(*l, env, ti, ds, Ok(x)),
        evals(*rhs, env, ti, ds, Ok(y)),
        op_result(op, x, y, r),
    ensures
        evals(Expr::Bin(op, l, rhs), env, ti, ds, r),
{
    assert(step(x) && step(y));
}

proof fn lemma_call_applies(
    name: String,
    args: Vec<Expr>,
    env: Seq<Binding>,
    ti: TimeInterval,
    ds: Datastore,
    b: Builtin,
    vs: Seq<DataType>,
    r: Result<DataType, QueryError>,
)
    requires
        callee(env, name@) == Some(b),
        evals_all(args@, env, ti, ds, Ok(vs)),
        call_result(b, vs, ti, ds, r),
    ensures
        evals(Expr::Call(name, args), env, ti, ds, r),
{
    assert(steps(vs));
}

/// Evaluates an expression against the bindings `env`.
pub fn eval_expr(e: &Expr, env: &Vec<Binding>, ti: &TimeInterval, ds: &Datastore) -> (r: Result<DataType, QueryError>)
    requires
        ds.wf(),
    ensures
        evals(*e, env@, *ti, *ds, r),
    decreases e,
{
    match e {
        Expr::Number(n) => Ok(DataType::Number(*n)),
        Expr::Str(s) => Ok(DataType::String(s.clone())),
        Expr::Var(name) => match find_var(env, name) {
            Some(i) => Ok(env[i].value.duplicate()),
            None => match find_builtin(name) {
                Some(_) => Ok(DataType::Function(name.clone())),
                None => Err(QueryError::VariableNotDefined(named_error(name))),
            },
        },
        Expr::List(items) => {
            let vs = eval_all(items, env, ti, ds)?;
            Ok(DataType::List(vs))
        },
        Expr::Dict(keys, vals) => {
            let vs = eval_all(vals, env, ti, ds)?;
            Ok(DataType::Dict(copy_keys(keys), vs))
        },
        Expr::Call(name, args) => {
            let b = resolve(env, name)?;
            let vs = eval_all(args, env, ti, ds)?;
            let r = call_builtin(b, &vs, ti, ds);
            proof {
                lemma_call_applies(*name, *args, env@, *ti, *ds, b, vs@, r);
            }
            r
        },
        Expr::Bin(op, l, rhs) => {
            let x = eval_expr(l, env, ti, ds)?;
            let y = match eval_expr(rhs, env, ti, ds) {
                Ok(y) => y,
                Err(err) => {
                    proof {
                        lemma_bin_right_fails(*op, *l, *rhs, env@, *ti, *ds, x, err);
                    }
                    return Err(err);
                },
            };
            let r = apply_op(*op, &x, &y);
            proof {
                lemma_bin_applies(*op, *l, *rhs, env@, *ti, *ds, x, y, r);
            }
            r
        },
    }
}

/// Runs statements in order with one flat scope. `return` ends the run
/// with its value; otherwise the result is the value of the last statement,
/// where an assignment has the value `Null` (so has an empty script).
pub fn run(stmts: &Vec<Stmt>, ti: &TimeInterval, ds: &Datastore) -> (r: Result<DataType, QueryError>)
    requires
        ds.wf(),
    ensures
        runs(stmts@, Seq::<Binding>::empty(), DataType::Null, *ti, *ds, r),
{
    let mut env: Vec<Binding> = Vec::new();
    let mut last = DataType::Null;
    let mut i: usize = 0;
    proof {
        assert(stmts@.subrange(0, stmts@.len() as int) =~= stmts@);
    }
    while i < stmts.len()
        invariant
            ds.wf(),
            i <= stmts@.len(),
            forall|res: Result<DataType, QueryError>|
                #[trigger] runs(stmts@.subrange(i as int, stmts@.len() as int), env@, last, *ti, *ds, res)
                    ==> runs(stmts@, Seq::<Binding>::empty(), DataType::Null, *ti, *ds, res),
        decreases stmts@.len() - i,
    {
        let ghost cur = stmts@.subrange(i as int, stmts@.len() as int);
        let ghost env0 = env@;
        let ghost last0 = last;
        proof {
            assert(cur[0] == stmts@[i as int]);
            assert(cur.subrange(1, cur.len() as int) =~= stmts@.subrange(i + 1, stmts@.len() as int));
        }
        match &stmts[i] {
            Stmt::Assign(name, e) => {
                let v = match eval_expr(e, &env, ti, ds) {
                    Ok(v) => v,
                    Err(err) => {
                        proof {
                            assert(runs(cur, env0, last0, *ti, *ds, Err(err)));
                        }
                        return Err(err);
                    },
                };
                let ghost gv = v;
                bind(&mut env, name.clone(), v);
                last = DataType::Null;
                proof {
                    assert forall|res: Result<DataType, QueryError>|
                        #[trigger] runs(stmts@.subrange(i + 1, stmts@.len() as int), env@, last, *ti, *ds, res)
                            implies runs(stmts@, Seq::<Binding>::empty(), DataType::Null, *ti, *ds, res) by {
                        assert(evals(*e, env0, *ti, *ds, Ok(gv)) && step(gv));
                        assert(runs(cur, env0, last0, *ti, *ds, res));
                    }
                }
            },
            Stmt::Return(e) => {
                let r = eval_expr(e, &env, ti, ds);
                proof {
                    assert(runs(cur, env0, last0, *ti, *ds, r));
                }
                return r;
            },
            Stmt::Eval(e) => {
                let v = match eval_expr(e, &env, ti, ds) {
                    Ok(v) => v,
                    Err(err) => {
                        proof {
                            assert(runs(cur, env0, last0, *ti, *ds, Err(err)));
                        }
                        return Err(err);
                    },
                };
                last = v;
                proof {
                    assert forall|res: Result<DataType, QueryError>|
                        #[trigger] runs(stmts@.subrange(i + 1, stmts@.len() as int), env@, last, *ti, *ds, res)
                            implies runs(stmts@, Seq::<Binding>::empty(), DataType::Null, *ti, *ds, res) by {
                        assert(evals(*e, env0, *ti, *ds, Ok(last)) && step(last));
                        assert(runs(cur, env0, last0, *ti, *ds, res));
                    }
                }
            },
        }
        i += 1;
    }
    proof {
        lemma_same_value_refl(last);
        assert(runs(stmts@.subrange(i as int, stmts@.len() as int), env@, last, *ti, *ds, Ok(last)));
    }
    Ok(last)
}

/// What script `code` gives over interval `ti`: a `ParsingError` exactly
/// when it does not lex (`lex_from`) or parse (`p_stmts`); otherwise the
/// result of running the parsed statements from no bindings.
pub open spec fn script_result(code: Seq<char>, ti: TimeInterval, ds: Datastore, r: Result<DataType, QueryError>) -> bool {
    match lex_from(code, 0) {
        None => r matches Err(QueryError::ParsingError(_)),
        Some(t) => match p_stmts(t, 0) {
            None => r matches Err(QueryError::ParsingError(_)),
            Some(ms) => exists|stmts: Seq<Stmt>|
                #[trigger] stmts_model(stmts, ms) && runs(stmts, Seq::<Binding>::empty(), DataType::Null, ti, ds, r),
        },
    }
}

/// Evaluates script `code` over interval `ti`, reading bucket contents
/// from `ds`.
pub fn query(code: &str, ti: &TimeInterval, ds: &Datastore) -> (r: Result<DataType, QueryError>)
    requires
        ds.wf(),
    ensures
        script_result(code@, *ti, *ds, r),
{
    let cs = chars_of(code);
    let tokens = match tokenize(&cs) {
        Ok(ts) => ts,
        Err(e) => return Err(e),
    };
    let stmts = match parse(&tokens) {
        Ok(ss) => ss,
        Err(e) => return Err(e),
    };
    let r = run(&stmts, ti, ds);
    proof {
        let ms = p_stmts(toks_of(tokens@), 0)->0;
        assert(stmts_model(stmts@, ms) && runs(stmts@, Seq::<Binding>::empty(), DataType::Null, *ti, *ds, r));
    }
    r
}

} // verus!
