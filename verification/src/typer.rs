use vstd::prelude::*;
use std::collections::HashMap;

use crate::parser::{RawType, RawTypeDefinition, Value};

verus! {

broadcast use vstd::std_specs::hash::group_hash_axioms;

/// A type, possibly holding unknowns that inference has still to fill in.
#[derive(Debug, Hash)]
pub enum Type {
    Unit,
    Int,
    Function(Box<Type>, Box<Type>),
    TypeDef(String),
    Unknown(usize),
}

/// The mathematical value of a `Type`: names as character sequences.
pub enum SpecType {
    Unit,
    Int,
    Function(Box<SpecType>, Box<SpecType>),
    TypeDef(Seq<char>),
    Unknown(usize),
}

pub open spec fn type_view(t: Type) -> SpecType
    decreases t,
{
    match t {
        Type::Unit => SpecType::Unit,
        Type::Int => SpecType::Int,
        Type::Function(a, b) => SpecType::Function(Box::new(type_view(*a)), Box::new(type_view(*b))),
        Type::TypeDef(x) => SpecType::TypeDef(x@),
        Type::Unknown(id) => SpecType::Unknown(id),
    }
}

impl View for Type {
    type V = SpecType;

    open spec fn view(&self) -> SpecType {
        type_view(*self)
    }
}

impl Clone for Type {
    fn clone(&self) -> (res: Self)
        ensures
            res == *self,
        decreases self,
    {
        match self {
            Type::Unit => Type::Unit,
            Type::Int => Type::Int,
            Type::Function(a, b) => {
                let a2 = (**a).clone();
                let b2 = (**b).clone();
                Type::Function(Box::new(a2), Box::new(b2))
            },
            Type::TypeDef(x) => Type::TypeDef(x.clone()),
            Type::Unknown(id) => Type::Unknown(*id),
        }
    }
}

/// A value together with the type it was given.
#[derive(Debug)]
pub struct TypedValue {
    pub val_type: Type,
    pub val_source: ValueSource,
}

/// The shape of a typed value.
#[derive(Debug)]
pub enum ValueSource {
    FunctionDefinition(String, Box<TypedValue>),
    FunctionCall(Box<TypedValue>, Box<TypedValue>),
    Constant(String),
    /// A number literal, as its text.
    Number(String),
    Unit,
}

/// A checked definition.
#[derive(Debug)]
pub enum TypedDefinition {
    TypeDefinition(TypeDefinition),
    ConstantDefinition(String, TypedValue),
}

/// A checked type definition: its name and its variants with their types.
#[derive(Debug)]
pub struct TypeDefinition {
    pub name: String,
    pub variants: Vec<(String, Type)>,
}

/// Why a program does not type-check.
#[derive(Debug)]
pub enum TypeError {
    /// A function was written where the expected type is not a function type.
    NotAFunctionType(Type),
    /// A function parameter has the name of a constant or of an enclosing parameter.
    ShadowedName(String),
    /// A name that is neither a constant nor a parameter in scope.
    UnknownName(String),
    /// The expected type (first) does not match the type found (second).
    Mismatch(Type, Type),
    /// Inference left a type unknown that had to be known.
    UnresolvedType,
    /// `Match` expressions are not typed.
    UnsupportedMatch,
    /// Inference ran out of numbers for unknown types.
    TooManyUnknowns,
    /// Comparing two types went deeper than `match_limit` levels, as only
    /// following a cycle of bindings does: every comparison that ends within
    /// that many levels is finished (`lemma_matches_finishes`).
    TooDeep,
}

/// Marks that a name was added to the constants for the scope of a function
/// body, and must be removed again.
#[must_use]
pub struct TempType;

/// The mathematical state of inference: the types of the constants and
/// parameters in scope by name, what each unknown has been bound to, the
/// next unknown to hand out.
pub struct TypingState {
    pub consts: Map<Seq<char>, Type>,
    pub unknowns: Map<usize, Type>,
    pub curr: usize,
}

/// The map an association list stands for; a later entry for a name wins.
pub open spec fn consts_of(s: Seq<(String, Type)>) -> Map<Seq<char>, Type>
    decreases s.len(),
{
    if s.len() == 0 {
        Map::empty()
    } else {
        consts_of(s.drop_last()).insert(s.last().0@, s.last().1)
    }
}

pub open spec fn distinct_names(s: Seq<(String, Type)>) -> bool {
    forall|i: int, j: int| 0 <= i < s.len() && 0 <= j < s.len() && i != j ==> s[i].0@ != s[j].0@
}

proof fn lemma_consts_of_contains(s: Seq<(String, Type)>, k: Seq<char>)
    ensures
        consts_of(s).contains_key(k) <==> exists|i: int| 0 <= i < s.len() && s[i].0@ == k,
    decreases s.len(),
{
    if s.len() > 0 {
        lemma_consts_of_contains(s.drop_last(), k);
        if consts_of(s.drop_last()).contains_key(k) {
            let i = choose|i: int| 0 <= i < s.drop_last().len() && s.drop_last()[i].0@ == k;
            assert(s[i].0@ == k);
        }
        if exists|i: int| 0 <= i < s.len() && s[i].0@ == k {
            let i = choose|i: int| 0 <= i < s.len() && s[i].0@ == k;
            if i < s.len() - 1 {
                assert(s.drop_last()[i].0@ == k);
            }
        }
    }
}

proof fn lemma_consts_of_index(s: Seq<(String, Type)>, i: int)
    requires
        distinct_names(s),
        0 <= i < s.len(),
    ensures
        consts_of(s).contains_key(s[i].0@),
        consts_of(s)[s[i].0@] == s[i].1,
    decreases s.len(),
{
    if i < s.len() - 1 {
        assert(distinct_names(s.drop_last()));
        assert(s.drop_last()[i] == s[i]);
        lemma_consts_of_index(s.drop_last(), i);
        assert(s.last().0@ != s[i].0@);
    }
}

proof fn lemma_consts_of_remove(s: Seq<(String, Type)>, i: int)
    requires
        distinct_names(s),
        0 <= i < s.len(),
    ensures
        consts_of(s.remove(i)) == consts_of(s).remove(s[i].0@),
        distinct_names(s.remove(i)),
    decreases s.len(),
{
    let k = s[i].0@;
    if i == s.len() - 1 {
        assert(s.remove(i) =~= s.drop_last());
        lemma_consts_of_contains(s.drop_last(), k);
        assert(!consts_of(s.drop_last()).contains_key(k)) by {
            if consts_of(s.drop_last()).contains_key(k) {
                let j = choose|j: int| 0 <= j < s.drop_last().len() && s.drop_last()[j].0@ == k;
                assert(s[j].0@ == k);
            }
        }
        assert(consts_of(s.drop_last()) =~= consts_of(s).remove(k));
    } else {
        let t = s.drop_last();
        assert(distinct_names(t));
        assert(t[i] == s[i]);
        lemma_consts_of_remove(t, i);
        assert(s.remove(i).drop_last() =~= t.remove(i));
        assert(s.remove(i).last() == s.last());
        assert(s.last().0@ != k);
        assert(consts_of(s.remove(i)) =~= consts_of(s).remove(k));
    }
}

proof fn lemma_consts_of_update(s: Seq<(String, Type)>, i: int, e: (String, Type))
    requires
        distinct_names(s),
        0 <= i < s.len(),
        e.0@ == s[i].0@,
    ensures
        consts_of(s.update(i, e)) == consts_of(s).insert(e.0@, e.1),
        distinct_names(s.update(i, e)),
    decreases s.len(),
{
    if i == s.len() - 1 {
        assert(s.update(i, e).drop_last() =~= s.drop_last());
        assert(consts_of(s.update(i, e)) =~= consts_of(s).insert(e.0@, e.1));
    } else {
        let t = s.drop_last();
        assert(distinct_names(t));
        lemma_consts_of_update(t, i, e);
        assert(s.update(i, e).drop_last() =~= t.update(i, e));
        assert(s.last().0@ != e.0@);
        assert(consts_of(s.update(i, e)) =~= consts_of(s).insert(e.0@, e.1));
    }
}

/// How many levels of nested types and bindings `matches` follows before it
/// gives up. Comparison never ends only where bindings form a cycle (nothing
/// checks that an unknown does not occur in what it is bound to); the limit
/// stops that, and lies beyond any recursion a machine can hold, so every
/// comparison that ends is finished (`lemma_matches_finishes`).
pub open spec fn match_limit() -> nat {
    u64::MAX as nat
}

/// Compares `t1` with `t2` under the bindings `u` of unknowns, following at
/// most `depth` levels: whether they can stand for the same type (`None`
/// where it gave up), and the bindings afterwards (as far as it got).
/// Unknowns are compared through their bindings; an unbound unknown is bound
/// to the other side (the larger of two unbound unknowns to the smaller).
/// Both halves of two function types are compared, left first.
pub open spec fn spec_matches(u: Map<usize, Type>, t1: Type, t2: Type, depth: nat) -> (
    Option<bool>,
    Map<usize, Type>,
)
    decreases depth,
{
    if depth == 0 {
        (None, u)
    } else {
        let d = (depth - 1) as nat;
        match (t1, t2) {
            (Type::Unit, Type::Unit) => (Some(true), u),
            (Type::Int, Type::Int) => (Some(true), u),
            (Type::TypeDef(x), Type::TypeDef(y)) => (Some(x@ == y@), u),
            (Type::Function(a, b), Type::Function(c, e)) => {
                let (r1, u1) = spec_matches(u, *a, *c, d);
                match r1 {
                    None => (None, u1),
                    Some(b1) => {
                        let (r2, u2) = spec_matches(u1, *b, *e, d);
                        match r2 {
                            None => (None, u2),
                            Some(b2) => (Some(b1 && b2), u2),
                        }
                    },
                }
            },
            (Type::Unknown(a), Type::Unknown(b)) => if !u.contains_key(a) && !u.contains_key(b) {
                let hi = if a >= b {
                    a
                } else {
                    b
                };
                let lo = if a <= b {
                    a
                } else {
                    b
                };
                (Some(true), u.insert(hi, Type::Unknown(lo)))
            } else if !u.contains_key(a) {
                (Some(true), u.insert(a, u[b]))
            } else if !u.contains_key(b) {
                (Some(true), u.insert(b, u[a]))
            } else {
                spec_matches(u, u[a], u[b], d)
            },
            (typ, Type::Unknown(id)) => if u.contains_key(id) {
                spec_matches(u, typ, u[id], d)
            } else {
                (Some(true), u.insert(id, typ))
            },
            (Type::Unknown(id), typ) => if u.contains_key(id) {
                spec_matches(u, typ, u[id], d)
            } else {
                (Some(true), u.insert(id, typ))
            },
            _ => (Some(false), u),
        }
    }
}

/// `u2` holds every binding of `u`, unchanged.
pub open spec fn extends(u: Map<usize, Type>, u2: Map<usize, Type>) -> bool {
    forall|k: usize| #[trigger] u.contains_key(k) ==> u2.contains_key(k) && u2[k] == u[k]
}

/// Every unknown in `t` that has no binding in `u` is below `unk`.
pub open spec fn resolved_from(u: Map<usize, Type>, t: Type, unk: usize) -> bool
    decreases t,
{
    match t {
        Type::Function(a, b) => resolved_from(u, *a, unk) && resolved_from(u, *b, unk),
        Type::Unknown(id) => u.contains_key(id) || id < unk,
        _ => true,
    }
}

/// `t` with each bound unknown replaced by its binding (one level: the
/// binding itself is not looked into).
pub open spec fn spec_instantiate_type(u: Map<usize, Type>, t: Type) -> Type
    decreases t,
{
    match t {
        Type::Function(a, b) => Type::Function(
            Box::new(spec_instantiate_type(u, *a)),
            Box::new(spec_instantiate_type(u, *b)),
        ),
        Type::Unknown(id) => if u.contains_key(id) {
            u[id]
        } else {
            t
        },
        _ => t,
    }
}

/// `resolved_from` for every type in a typed value.
pub open spec fn value_resolved_from(u: Map<usize, Type>, v: TypedValue, unk: usize) -> bool
    decreases v,
{
    &&& resolved_from(u, v.val_type, unk)
    &&& match v.val_source {
        ValueSource::FunctionDefinition(_, body) => value_resolved_from(u, *body, unk),
        ValueSource::FunctionCall(f, a) => value_resolved_from(u, *f, unk) && value_resolved_from(
            u,
            *a,
            unk,
        ),
        _ => true,
    }
}

/// `spec_instantiate_type` on every type in a typed value.
pub open spec fn spec_instantiate_val(u: Map<usize, Type>, v: TypedValue) -> TypedValue
    decreases v,
{
    TypedValue {
        val_type: spec_instantiate_type(u, v.val_type),
        val_source: match v.val_source {
            ValueSource::FunctionDefinition(x, body) => ValueSource::FunctionDefinition(
                x,
                Box::new(spec_instantiate_val(u, *body)),
            ),
            ValueSource::FunctionCall(f, a) => ValueSource::FunctionCall(
                Box::new(spec_instantiate_val(u, *f)),
                Box::new(spec_instantiate_val(u, *a)),
            ),
            other => other,
        },
    }
}

/// `u` without the bindings of the unknowns `from..to`.
pub open spec fn drop_unknowns(u: Map<usize, Type>, from: usize, to: usize) -> Map<usize, Type> {
    u.remove_keys(Set::new(|k: usize| from <= k < to))
}

/// The type a written type stands for.
pub open spec fn spec_raw_type_to_type(t: RawType) -> Type
    decreases t,
{
    match t {
        RawType::Unit => Type::Unit,
        RawType::Function(a, b) => Type::Function(
            Box::new(spec_raw_type_to_type(*a)),
            Box::new(spec_raw_type_to_type(*b)),
        ),
        RawType::TypeDef(x) => Type::TypeDef(x),
    }
}

/// `td` is the checked form of `raw`: the same name, and the same variants in
/// the same order, each with the type its written type stands for.
pub open spec fn is_checked_type_def(raw: RawTypeDefinition, td: TypeDefinition) -> bool {
    &&& td.name == raw.name
    &&& td.variants@.len() == raw.variants@.len()
    &&& forall|j: int|
        0 <= j < raw.variants@.len() ==> #[trigger] td.variants@[j] == (
            raw.variants@[j].0,
            spec_raw_type_to_type(raw.variants@[j].1),
        )
}

/// The parameter and result types a function written where `goal` is
/// expected gets. An unbound unknown `goal` is bound to a function type
/// between two fresh unknowns.
pub open spec fn function_goal(goal: Type, s: TypingState) -> Result<(Type, Type, TypingState), TypeError> {
    match goal {
        Type::Function(i, o) => Ok((*i, *o, s)),
        Type::Unknown(id) => if s.unknowns.contains_key(id) {
            match s.unknowns[id] {
                Type::Function(i, o) => Ok((*i, *o, s)),
                other => Err(TypeError::NotAFunctionType(other)),
            }
        } else if s.curr >= usize::MAX - 1 {
            Err(TypeError::TooManyUnknowns)
        } else {
            let i = Type::Unknown(s.curr);
            let o = Type::Unknown((s.curr + 1) as usize);
            Ok(
                (
                    i,
                    o,
                    TypingState {
                        consts: s.consts,
                        unknowns: s.unknowns.insert(id, Type::Function(Box::new(i), Box::new(o))),
                        curr: (s.curr + 2) as usize,
                    },
                ),
            )
        },
        _ => Err(TypeError::NotAFunctionType(goal)),
    }
}

/// Every unknown from `id` up to the next unknown to hand out is bound.
pub open spec fn bound_from(s: TypingState, id: usize) -> bool {
    forall|k: usize| id <= k < s.curr ==> s.unknowns.contains_key(k)
}

/// The outcome of comparing `goal` with the type `found` of a leaf value
/// `source`.
pub open spec fn leaf_outcome(goal: Type, found: Type, source: ValueSource, s: TypingState) -> Result<
    (TypedValue, TypingState),
    TypeError,
> {
    match spec_matches(s.unknowns, goal, found, match_limit()) {
        (None, _) => Err(TypeError::TooDeep),
        (Some(false), _) => Err(TypeError::Mismatch(goal, found)),
        (Some(true), u) => Ok(
            (
                TypedValue { val_type: found, val_source: source },
                TypingState { consts: s.consts, unknowns: u, curr: s.curr },
            ),
        ),
    }
}

/// Types `value` where a value of type `goal` is expected, in state `s`:
/// - `|x| body`: `goal` gives the parameter and result types
///   (`function_goal`); `x` must not name anything in scope; the body is
///   typed against the result type with `x` in scope; the value has type `goal`.
/// - `f(a)`: a fresh unknown `U` stands for the argument's type; `a` is
///   typed against `U`, then `f` against `U -> goal`. Afterwards `U` and
///   every unknown handed out since must be bound, and every unbound unknown
///   left in either typed part must be older than `U`; both parts get their
///   bound unknowns replaced by the bindings, and the unknowns from `U` on
///   are forgotten. The value has type `goal`.
/// - a name, a number or `()`: its type (the name's type in scope, `Int`,
///   `Unit`) must match `goal` (`spec_matches`), and is the value's type.
/// - `Match` is not typed.
pub open spec fn spec_parse_val(value: Value, goal: Type, s: TypingState) -> Result<
    (TypedValue, TypingState),
    TypeError,
>
    decreases value,
{
    match value {
        Value::FunctionDefinition(x, _, body) => match function_goal(goal, s) {
            Err(e) => Err(e),
            Ok((inp, out, s1)) => if s1.consts.contains_key(x@) {
                Err(TypeError::ShadowedName(x))
            } else {
                let inner = TypingState {
                    consts: s1.consts.insert(x@, inp),
                    unknowns: s1.unknowns,
                    curr: s1.curr,
                };
                match spec_parse_val(*body, out, inner) {
                    Err(e) => Err(e),
                    Ok((typed_body, s2)) => Ok(
                        (
                            TypedValue {
                                val_type: goal,
                                val_source: ValueSource::FunctionDefinition(x, Box::new(typed_body)),
                            },
                            TypingState {
                                consts: s2.consts.remove(x@),
                                unknowns: s2.unknowns,
                                curr: s2.curr,
                            },
                        ),
                    ),
                }
            },
        },
        Value::FunctionCall(func, arg) => if s.curr == usize::MAX {
            Err(TypeError::TooManyUnknowns)
        } else {
            let id = s.curr;
            let unk = Type::Unknown(id);
            let s1 = TypingState {
                consts: s.consts,
                unknowns: s.unknowns,
                curr: (id + 1) as usize,
            };
            match spec_parse_val(*arg, unk, s1) {
                Err(e) => Err(e),
                Ok((typed_arg, s2)) => match spec_parse_val(
                    *func,
                    Type::Function(Box::new(unk), Box::new(goal)),
                    s2,
                ) {
                    Err(e) => Err(e),
                    Ok((typed_func, s3)) => if s3.unknowns.contains_key(id) && value_resolved_from(
                        s3.unknowns,
                        typed_func,
                        id,
                    ) && value_resolved_from(s3.unknowns, typed_arg, id) && bound_from(s3, id) {
                        Ok(
                            (
                                TypedValue {
                                    val_type: goal,
                                    val_source: ValueSource::FunctionCall(
                                        Box::new(spec_instantiate_val(s3.unknowns, typed_func)),
                                        Box::new(spec_instantiate_val(s3.unknowns, typed_arg)),
                                    ),
                                },
                                TypingState {
                                    consts: s3.consts,
                                    unknowns: drop_unknowns(s3.unknowns, id, s3.curr),
                                    curr: if s3.curr > id {
                                        id
                                    } else {
                                        s3.curr
                                    },
                                },
                            ),
                        )
                    } else {
                        Err(TypeError::UnresolvedType)
                    },
                },
            }
        },
        Value::Constant(x) => if s.consts.contains_key(x@) {
            leaf_outcome(goal, s.consts[x@], ValueSource::Constant(x), s)
        } else {
            Err(TypeError::UnknownName(x))
        },
        Value::Number(x) => leaf_outcome(goal, Type::Int, ValueSource::Number(x), s),
        Value::Unit => leaf_outcome(goal, Type::Unit, ValueSource::Unit, s),
        Value::Match(_, _) => Err(TypeError::UnsupportedMatch),
    }
}

/// Types the constant definitions in order, threading the inference state;
/// the first failure is the result.
pub open spec fn spec_type_consts(defs: Seq<(String, Value, RawType)>, s: TypingState) -> Result<
    Seq<(String, TypedValue)>,
    TypeError,
>
    decreases defs.len(),
{
    if defs.len() == 0 {
        Ok(seq![])
    } else {
        match spec_parse_val(defs[0].1, spec_raw_type_to_type(defs[0].2), s) {
            Err(e) => Err(e),
            Ok((tv, s2)) => match spec_type_consts(defs.drop_first(), s2) {
                Err(e) => Err(e),
                Ok(rest) => Ok(seq![(defs[0].0, tv)] + rest),
            },
        }
    }
}

/// The declared types of the constants, by name.
pub open spec fn declared_types(defs: Seq<(String, Value, RawType)>) -> Seq<(String, Type)> {
    defs.map_values(|d: (String, Value, RawType)| (d.0, spec_raw_type_to_type(d.2)))
}

/// The state typing starts in: every constant has its declared type (a later
/// definition of a name wins), and there are no unknowns.
pub open spec fn initial_state(defs: Seq<(String, Value, RawType)>) -> TypingState {
    TypingState { consts: consts_of(declared_types(defs)), unknowns: Map::empty(), curr: 0 }
}

pub open spec fn prepend_typed(
    front: Seq<(String, TypedValue)>,
    r: Result<Seq<(String, TypedValue)>, TypeError>,
) -> Result<Seq<(String, TypedValue)>, TypeError> {
    match r {
        Ok(rest) => Ok(front + rest),
        Err(e) => Err(e),
    }
}

/// The inference state: the types of constants and parameters in scope, the
/// bindings of unknowns, and the next unknown.
pub struct State {
    const_types: Vec<(String, Type)>,
    unknown_types: HashMap<usize, Type>,
    curr: usize,
}

impl View for State {
    type V = TypingState;

    closed spec fn view(&self) -> TypingState {
        TypingState {
            consts: consts_of(self.const_types@),
            unknowns: self.unknown_types@,
            curr: self.curr,
        }
    }
}

impl State {
    /// Each name in scope has one entry.
    pub closed spec fn wf(&self) -> bool {
        distinct_names(self.const_types@)
    }

    /// The index of the constant named `name`.
    fn find_const(&self, name: &String) -> (res: Option<usize>)
        ensures
            match res {
                Some(i) => {
                    &&& i < self.const_types@.len()
                    &&& self.const_types@[i as int].0@ == name@
                    &&& self@.consts.contains_key(name@)
                },
                None => !self@.consts.contains_key(name@),
            },
    {
        let mut i: usize = 0;
        while i < self.const_types.len()
            invariant
                i <= self.const_types@.len(),
                forall|j: int| 0 <= j < i ==> self.const_types@[j].0@ != name@,
            decreases self.const_types@.len() - i,
        {
            if self.const_types[i].0 == *name {
                proof {
                    lemma_consts_of_contains(self.const_types@, name@);
                }
                return Some(i);
            }
            i = i + 1;
        }
        proof {
            lemma_consts_of_contains(self.const_types@, name@);
        }
        None
    }

    /// A state whose constants have the given types (where a name occurs
    /// twice the later entry wins), with no unknowns.
    pub fn new(const_types: Vec<(String, Type)>) -> (s: Self)
        ensures
            s.wf(),
            s@.consts == consts_of(const_types@),
            s@.unknowns == Map::<usize, Type>::empty(),
            s@.curr == 0,
    {
        let mut entries: Vec<(String, Type)> = Vec::new();
        let mut source = const_types;
        let ghost all = source@;
        let mut k: usize = 0;
        let n = source.len();
        while k < n
            invariant
                n == all.len(),
                k <= n,
                distinct_names(entries@),
                consts_of(entries@) == consts_of(all.take(k as int)),
                source@.len() == n - k,
                forall|j: int| 0 <= j < source@.len() ==> source@[j] == all[k + j],
            decreases n - k,
        {
            let entry = source.remove(0);
            assert(entry == all[k as int]);
            assert(all.take(k + 1).drop_last() =~= all.take(k as int));
            let ghost before = entries@;
            let mut found: Option<usize> = None;
            let mut i: usize = 0;
            while i < entries.len()
                invariant
                    entries@ == before,
                    i <= entries@.len(),
                    found is None ==> forall|j: int| 0 <= j < i ==> entries@[j].0@ != entry.0@,
                    found matches Some(f) ==> f < entries@.len() && entries@[f as int].0@ == entry.0@,
                decreases entries@.len() - i,
            {
                if found.is_none() && entries[i].0 == entry.0 {
                    found = Some(i);
                }
                i = i + 1;
            }
            match found {
                Some(f) => {
                    proof {
                        lemma_consts_of_update(before, f as int, entry);
                    }
                    entries.set(f, entry);
                },
                None => {
                    entries.push(entry);
                    assert(entries@.drop_last() =~= before);
                },
            }
            k = k + 1;
        }
        assert(all.take(n as int) =~= all);
        State { const_types: entries, unknown_types: HashMap::new(), curr: 0 }
    }

    /// The type of the constant or parameter `str`.
    pub fn get_type(&self, str: &str) -> (t: Type)
        requires
            self.wf(),
            self@.consts.contains_key(str@),
        ensures
            t == self@.consts[str@],
    {
        let name = str.to_owned();
        let i = self.find_const(&name).unwrap();
        proof {
            lemma_consts_of_index(self.const_types@, i as int);
        }
        self.const_types[i].1.clone()
    }

    /// Brings a parameter `name` of type `const_type` into scope.
    pub fn add_temp_type(&mut self, const_type: Type, name: String) -> (temp: TempType)
        requires
            old(self).wf(),
            !old(self)@.consts.contains_key(name@),
        ensures
            final(self).wf(),
            final(self)@.consts == old(self)@.consts.insert(name@, const_type),
            final(self)@.unknowns == old(self)@.unknowns,
            final(self)@.curr == old(self)@.curr,
    {
        proof {
            lemma_consts_of_contains(self.const_types@, name@);
        }
        let ghost before = self.const_types@;
        self.const_types.push((name, const_type));
        proof {
            assert(self.const_types@.drop_last() =~= before);
            assert forall|i: int, j: int|
                0 <= i < self.const_types@.len() && 0 <= j < self.const_types@.len() && i != j
                implies self.const_types@[i].0@ != self.const_types@[j].0@ by {
                if i < before.len() && j < before.len() {
                    assert(before[i] == self.const_types@[i]);
                    assert(before[j] == self.const_types@[j]);
                } else if i < before.len() {
                    assert(before[i] == self.const_types@[i]);
                } else if j < before.len() {
                    assert(before[j] == self.const_types@[j]);
                }
            }
        }
        TempType
    }

    /// Takes the parameter `name` out of scope again.
    pub fn remove_temp_type(&mut self, temp: TempType, name: &str)
        requires
            old(self).wf(),
            old(self)@.consts.contains_key(name@),
        ensures
            final(self).wf(),
            final(self)@.consts == old(self)@.consts.remove(name@),
            final(self)@.unknowns == old(self)@.unknowns,
            final(self)@.curr == old(self)@.curr,
    {
        let key = name.to_owned();
        let i = self.find_const(&key).unwrap();
        proof {
            lemma_consts_of_remove(self.const_types@, i as int);
        }
        self.const_types.remove(i);
    }

    /// A fresh unknown type.
    pub fn add_unknown(&mut self) -> (t: Type)
        requires
            old(self).wf(),
            old(self)@.curr < usize::MAX,
        ensures
            final(self).wf(),
            t == Type::Unknown(old(self)@.curr),
            final(self)@.curr == old(self)@.curr + 1,
            final(self)@.consts == old(self)@.consts,
            final(self)@.unknowns == old(self)@.unknowns,
    {
        let id = self.curr;
        self.curr = self.curr + 1;
        Type::Unknown(id)
    }
    /// The binding of unknown `id`, if any.
    fn binding(&self, id: usize) -> (res: Option<Type>)
        ensures
            match res {
                Some(t) => self@.unknowns.contains_key(id) && t == self@.unknowns[id],
                None => !self@.unknowns.contains_key(id),
            },
    {
        match self.unknown_types.get(&id) {
            Some(t) => Some(t.clone()),
            None => None,
        }
    }

    /// Binds the unbound unknown `id` to `t`.
    fn bind(&mut self, id: usize, t: Type)
        requires
            old(self).wf(),
            !old(self)@.unknowns.contains_key(id),
        ensures
            final(self).wf(),
            final(self)@.unknowns == old(self)@.unknowns.insert(id, t),
            final(self)@.consts == old(self)@.consts,
            final(self)@.curr == old(self)@.curr,
    {
        self.unknown_types.insert(id, t);
    }

    /// `matches`, giving up below `depth` levels.
    fn matches_within(&mut self, type1: &Type, type2: &Type, depth: u64) -> (res: Option<bool>)
        requires
            old(self).wf(),
        ensures
            final(self).wf(),
            final(self)@.consts == old(self)@.consts,
            final(self)@.curr == old(self)@.curr,
            extends(old(self)@.unknowns, final(self)@.unknowns),
            spec_matches(old(self)@.unknowns, *type1, *type2, depth as nat) == (
                res,
                final(self)@.unknowns,
            ),
        decreases depth,
    {
        if depth == 0 {
            return None;
        }
        let d = depth - 1;
        match (type1, type2) {
            (Type::Unit, Type::Unit) => Some(true),
            (Type::Int, Type::Int) => Some(true),
            (Type::TypeDef(x), Type::TypeDef(y)) => Some(*x == *y),
            (Type::Function(a, b), Type::Function(c, e)) => {
                let r1 = match self.matches_within(a, c, d) {
                    Some(r) => r,
                    None => {
                        return None;
                    },
                };
                let r2 = match self.matches_within(b, e, d) {
                    Some(r) => r,
                    None => {
                        return None;
                    },
                };
                Some(r1 && r2)
            },
            (Type::Unknown(a), Type::Unknown(b)) => {
                match (self.binding(*a), self.binding(*b)) {
                    (None, None) => {
                        let hi = if *a >= *b {
                            *a
                        } else {
                            *b
                        };
                        let lo = if *a <= *b {
                            *a
                        } else {
                            *b
                        };
                        self.bind(hi, Type::Unknown(lo));
                        Some(true)
                    },
                    (None, Some(typ)) => {
                        self.bind(*a, typ);
                        Some(true)
                    },
                    (Some(typ), None) => {
                        self.bind(*b, typ);
                        Some(true)
                    },
                    (Some(t1), Some(t2)) => self.matches_within(&t1, &t2, d),
                }
            },
            (typ, Type::Unknown(id)) => {
                match self.binding(*id) {
                    Some(typ2) => self.matches_within(typ, &typ2, d),
                    None => {
                        self.bind(*id, typ.clone());
                        Some(true)
                    },
                }
            },
            (Type::Unknown(id), typ) => {
                match self.binding(*id) {
                    Some(typ2) => self.matches_within(typ, &typ2, d),
                    None => {
                        self.bind(*id, typ.clone());
                        Some(true)
                    },
                }
            },
            _ => Some(false),
        }
    }

    /// Whether `type1` and `type2` can stand for the same type, binding
    /// unknowns as `spec_matches` says, and leaving the bindings it states;
    /// `None` when the comparison goes deeper than `match_limit`, as only
    /// following a cycle of bindings does (`lemma_matches_finishes`). It is
    /// plain equality on types without unknowns (`lemma_matches_ground`),
    /// solves for the unknowns against a type without unknowns
    /// (`lemma_matches_ground_target`), and the order of the two types does
    /// not matter, for the answer or the bindings left
    /// (`lemma_matches_symmetric`). Whatever the outcome, bindings are only
    /// added, never changed or removed.
    pub fn matches(&mut self, type1: &Type, type2: &Type) -> (res: Option<bool>)
        requires
            old(self).wf(),
        ensures
            final(self).wf(),
            final(self)@.consts == old(self)@.consts,
            final(self)@.curr == old(self)@.curr,
            extends(old(self)@.unknowns, final(self)@.unknowns),
            spec_matches(old(self)@.unknowns, *type1, *type2, match_limit()) == (
                res,
                final(self)@.unknowns,
            ),
    {
        self.matches_within(type1, type2, u64::MAX)
    }
    /// Replaces the bound unknowns in `typ` by their bindings.
    pub fn instantiate_type(&self, typ: &mut Type, unk: usize)
        requires
            resolved_from(self@.unknowns, *old(typ), unk),
        ensures
            *final(typ) == spec_instantiate_type(self@.unknowns, *old(typ)),
        decreases *old(typ),
    {
        match typ {
            Type::Function(ty1, ty2) => {
                self.instantiate_type(ty1, unk);
                self.instantiate_type(ty2, unk);
            },
            Type::Unknown(id) => {
                let id = *id;
                match self.unknown_types.get(&id) {
                    Some(t) => {
                        *typ = t.clone();
                    },
                    None => {},
                }
            },
            _ => {},
        }
    }

    /// Replaces the bound unknowns in every type in `val` by their bindings.
    pub fn instantiate_val(&self, val: &mut TypedValue, unk: usize)
        requires
            value_resolved_from(self@.unknowns, *old(val), unk),
        ensures
            *final(val) == spec_instantiate_val(self@.unknowns, *old(val)),
        decreases *old(val),
    {
        self.instantiate_type(&mut val.val_type, unk);
        match &mut val.val_source {
            ValueSource::FunctionDefinition(_, typed_value) => {
                self.instantiate_val(typed_value, unk);
            },
            ValueSource::FunctionCall(typed_value, typed_value1) => {
                self.instantiate_val(typed_value, unk);
                self.instantiate_val(typed_value1, unk);
            },
            _ => {},
        }
    }

    /// Forgets the unknowns from `id` on, all of which must be bound.
    pub fn remove_unknown(&mut self, id: usize)
        requires
            old(self).wf(),
            forall|k: usize| id <= k < old(self)@.curr ==> old(self)@.unknowns.contains_key(k),
        ensures
            final(self).wf(),
            final(self)@.consts == old(self)@.consts,
            final(self)@.unknowns == drop_unknowns(old(self)@.unknowns, id, old(self)@.curr),
            final(self)@.curr == if old(self)@.curr > id {
                id
            } else {
                old(self)@.curr
            },
    {
        let ghost u0 = self@.unknowns;
        let ghost c0 = self@.curr;
        assert(drop_unknowns(u0, c0, c0) =~= u0);
        while self.curr > id
            invariant
                self.wf(),
                self@.consts == old(self)@.consts,
                u0 == old(self)@.unknowns,
                c0 == old(self)@.curr,
                self.curr <= c0,
                c0 > id ==> id <= self.curr,
                c0 <= id ==> self.curr == c0,
                self@.unknowns == drop_unknowns(u0, self.curr, c0),
                forall|k: usize| id <= k < c0 ==> u0.contains_key(k),
            decreases self.curr,
        {
            self.curr = self.curr - 1;
            self.unknown_types.remove(&self.curr);
            assert(self@.unknowns =~= drop_unknowns(u0, self.curr, c0));
        }
        assert(drop_unknowns(u0, self.curr, c0) =~= drop_unknowns(u0, id, c0));
    }
    /// Whether every unbound unknown in `t` is below `unk`.
    fn type_resolved(&self, t: &Type, unk: usize) -> (b: bool)
        ensures
            b == resolved_from(self@.unknowns, *t, unk),
        decreases t,
    {
        match t {
            Type::Function(a, c) => self.type_resolved(a, unk) && self.type_resolved(c, unk),
            Type::Unknown(id) => self.binding(*id).is_some() || *id < unk,
            _ => true,
        }
    }

    /// Whether every unbound unknown in every type in `v` is below `unk`.
    fn value_resolved(&self, v: &TypedValue, unk: usize) -> (b: bool)
        ensures
            b == value_resolved_from(self@.unknowns, *v, unk),
        decreases v,
    {
        self.type_resolved(&v.val_type, unk) && match &v.val_source {
            ValueSource::FunctionDefinition(_, body) => self.value_resolved(body, unk),
            ValueSource::FunctionCall(f, a) => self.value_resolved(f, unk) && self.value_resolved(
                a,
                unk,
            ),
            _ => true,
        }
    }

    /// Whether every unknown from `id` on is bound.
    fn all_bound_from(&self, id: usize) -> (b: bool)
        ensures
            b == bound_from(self@, id),
    {
        let mut k = id;
        while k < self.curr
            invariant
                id <= k || self.curr <= k,
                forall|j: usize| id <= j < k && j < self.curr ==> self@.unknowns.contains_key(j),
            decreases self.curr - k,
        {
            if self.binding(k).is_none() {
                return false;
            }
            k = k + 1;
        }
        true
    }
}

/// The type a written type stands for.
pub fn raw_type_to_type(t: RawType) -> (res: Type)
    ensures
        res == spec_raw_type_to_type(t),
    decreases t,
{
    match t {
        RawType::Unit => Type::Unit,
        RawType::Function(raw_type, raw_type1) => Type::Function(
            Box::new(raw_type_to_type(*raw_type)),
            Box::new(raw_type_to_type(*raw_type1)),
        ),
        RawType::TypeDef(x) => Type::TypeDef(x),
    }
}

/// The checked form of a type definition.
pub fn parse_type_def(type_def: RawTypeDefinition) -> (res: TypeDefinition)
    ensures
        is_checked_type_def(type_def, res),
{
    let ghost raw = type_def;
    let RawTypeDefinition { name, variants: mut rest } = type_def;
    let mut variants: Vec<(String, Type)> = Vec::new();
    let n = rest.len();
    let mut k: usize = 0;
    while k < n
        invariant
            n == raw.variants@.len(),
            k <= n,
            rest@.len() == n - k,
            forall|j: int| 0 <= j < rest@.len() ==> rest@[j] == raw.variants@[k + j],
            variants@.len() == k,
            forall|j: int|
                0 <= j < k ==> #[trigger] variants@[j] == (
                    raw.variants@[j].0,
                    spec_raw_type_to_type(raw.variants@[j].1),
                ),
        decreases n - k,
    {
        let (variant_name, raw_type) = rest.remove(0);
        variants.push((variant_name, raw_type_to_type(raw_type)));
        k = k + 1;
    }
    TypeDefinition { name, variants }
}

/// The parameter and result types for a function where `goal` is expected.
fn function_goal_exec(goal: &Type, state: &mut State) -> (res: Result<(Type, Type), TypeError>)
    requires
        old(state).wf(),
    ensures
        final(state).wf(),
        match res {
            Ok((i, o)) => function_goal(*goal, old(state)@) == Ok::<(Type, Type, TypingState), TypeError>((i, o, final(state)@)),
            Err(e) => function_goal(*goal, old(state)@) == Err::<(Type, Type, TypingState), TypeError>(e),
        },
{
    match goal {
        Type::Function(i, o) => Ok(((**i).clone(), (**o).clone())),
        Type::Unknown(id) => match state.binding(*id) {
            Some(Type::Function(i, o)) => Ok((*i, *o)),
            Some(other) => Err(TypeError::NotAFunctionType(other)),
            None => {
                if state.curr >= usize::MAX - 1 {
                    return Err(TypeError::TooManyUnknowns);
                }
                let i = state.add_unknown();
                let o = state.add_unknown();
                state.bind(*id, Type::Function(Box::new(i.clone()), Box::new(o.clone())));
                Ok((i, o))
            },
        },
        _ => Err(TypeError::NotAFunctionType(goal.clone())),
    }
}

/// Compares `goal` with the type `found` of a leaf value.
fn leaf(goal: Type, found: Type, source: ValueSource, state: &mut State) -> (res: Result<TypedValue, TypeError>)
    requires
        old(state).wf(),
    ensures
        final(state).wf(),
        final(state)@.consts == old(state)@.consts,
        match res {
            Ok(tv) => leaf_outcome(goal, found, source, old(state)@) == Ok::<(TypedValue, TypingState), TypeError>((tv, final(state)@)),
            Err(e) => leaf_outcome(goal, found, source, old(state)@) == Err::<(TypedValue, TypingState), TypeError>(e),
        },
{
    match state.matches(&goal, &found) {
        None => Err(TypeError::TooDeep),
        Some(false) => Err(TypeError::Mismatch(goal, found)),
        Some(true) => Ok(TypedValue { val_type: found, val_source: source }),
    }
}

/// Types `value` where a value of type `goal` is expected (`spec_parse_val`).
fn parse_val(value: Value, goal: Type, state: &mut State) -> (res: Result<TypedValue, TypeError>)
    requires
        old(state).wf(),
    ensures
        final(state).wf(),
        match res {
            Ok(tv) => spec_parse_val(value, goal, old(state)@) == Ok::<(TypedValue, TypingState), TypeError>((tv, final(state)@)),
            Err(e) => spec_parse_val(value, goal, old(state)@) == Err::<(TypedValue, TypingState), TypeError>(e),
        },
        res is Ok ==> final(state)@.consts == old(state)@.consts,
    decreases value,
{
    let ghost s0 = state@;
    match value {
        Value::FunctionDefinition(str, _typ, val) => {
            let (inp, out) = function_goal_exec(&goal, state)?;
            if state.find_const(&str).is_some() {
                return Err(TypeError::ShadowedName(str));
            }
            let temp = state.add_temp_type(inp, str.clone());
            let typ_val = parse_val(*val, out, state)?;
            state.remove_temp_type(temp, str.as_str());
            proof {
                assert(state@.consts =~= s0.consts);
            }
            Ok(TypedValue { val_type: goal, val_source: ValueSource::FunctionDefinition(str, Box::new(typ_val)) })
        },
        Value::FunctionCall(func, arg) => {
            if state.curr == usize::MAX {
                return Err(TypeError::TooManyUnknowns);
            }
            let id = state.curr;
            let unk = state.add_unknown();
            let mut parsed_arg = parse_val(*arg, unk.clone(), state)?;
            let mut parsed_func = parse_val(
                *func,
                Type::Function(Box::new(unk), Box::new(goal.clone())),
                state,
            )?;
            if state.binding(id).is_none() || !state.value_resolved(&parsed_func, id)
                || !state.value_resolved(&parsed_arg, id) || !state.all_bound_from(id) {
                return Err(TypeError::UnresolvedType);
            }
            state.instantiate_val(&mut parsed_func, id);
            state.instantiate_val(&mut parsed_arg, id);
            state.remove_unknown(id);
            Ok(TypedValue {
                val_type: goal,
                val_source: ValueSource::FunctionCall(Box::new(parsed_func), Box::new(parsed_arg)),
            })
        },
        Value::Constant(str) => {
            if state.find_const(&str).is_none() {
                return Err(TypeError::UnknownName(str));
            }
            let found = state.get_type(str.as_str());
            leaf(goal, found, ValueSource::Constant(str), state)
        },
        Value::Number(x) => leaf(goal, Type::Int, ValueSource::Number(x), state),
        Value::Unit => leaf(goal, Type::Unit, ValueSource::Unit, state),
        Value::Match(_, _) => Err(TypeError::UnsupportedMatch),
    }
}

/// Checks a parsed program: converts the type definitions, and types each
/// constant's value against its declared type, in order, with every constant
/// in scope at its declared type.
pub fn type_definition(definitions: (Vec<RawTypeDefinition>, Vec<(String, Value, RawType)>)) -> (res: Result<
    (Vec<TypeDefinition>, Vec<(String, TypedValue)>),
    TypeError,
>)
    ensures
        match res {
            Ok((tds, cds)) => {
                &&& spec_type_consts(definitions.1@, initial_state(definitions.1@)) == Ok::<Seq<(String, TypedValue)>, TypeError>(cds@)
                &&& tds@.len() == definitions.0@.len()
                &&& forall|i: int| 0 <= i < tds@.len() ==> is_checked_type_def(#[trigger] definitions.0@[i], tds@[i])
            },
            Err(e) => spec_type_consts(definitions.1@, initial_state(definitions.1@)) == Err::<Seq<(String, TypedValue)>, TypeError>(e),
        },
{
    let ghost raw_types = definitions.0@;
    let ghost raw_consts = definitions.1@;
    let (type_def, const_def) = definitions;

    let mut const_types: Vec<(String, Type)> = Vec::new();
    let mut i: usize = 0;
    while i < const_def.len()
        invariant
            const_def@ == raw_consts,
            i <= raw_consts.len(),
            const_types@ == declared_types(raw_consts).take(i as int),
        decreases raw_consts.len() - i,
    {
        let entry = (const_def[i].0.clone(), raw_type_to_type(const_def[i].2.clone()));
        const_types.push(entry);
        assert(const_types@ =~= declared_types(raw_consts).take(i + 1));
        i = i + 1;
    }
    assert(declared_types(raw_consts).take(raw_consts.len() as int) =~= declared_types(raw_consts));
    let mut state = State::new(const_types);
    assert(state@ == initial_state(raw_consts));

    let mut type_defs: Vec<TypeDefinition> = Vec::new();
    let mut rest_types = type_def;
    let n = rest_types.len();
    let mut k: usize = 0;
    while k < n
        invariant
            n == raw_types.len(),
            k <= n,
            rest_types@.len() == n - k,
            forall|j: int| 0 <= j < rest_types@.len() ==> rest_types@[j] == raw_types[k + j],
            type_defs@.len() == k,
            forall|j: int| 0 <= j < k ==> is_checked_type_def(#[trigger] raw_types[j], type_defs@[j]),
        decreases n - k,
    {
        let td = rest_types.remove(0);
        type_defs.push(parse_type_def(td));
        k = k + 1;
    }

    let mut typed: Vec<(String, TypedValue)> = Vec::new();
    let mut rest_consts = const_def;
    let m = rest_consts.len();
    let mut c: usize = 0;
    assert(prepend_typed(typed@, spec_type_consts(raw_consts, state@)) == spec_type_consts(raw_consts, state@)) by {
        match spec_type_consts(raw_consts, state@) {
            Ok(r) => {
                assert(typed@ + r =~= r);
            },
            Err(e) => {},
        }
    }
    assert(rest_consts@ =~= raw_consts.skip(0));
    while c < m
        invariant
            m == raw_consts.len(),
            raw_consts == definitions.1@,
            raw_types == definitions.0@,
            type_defs@.len() == raw_types.len(),
            forall|j: int| 0 <= j < raw_types.len() ==> is_checked_type_def(#[trigger] raw_types[j], type_defs@[j]),
            c <= m,
            rest_consts@ == raw_consts.skip(c as int),
            state.wf(),
            spec_type_consts(raw_consts, initial_state(raw_consts)) == prepend_typed(
                typed@,
                spec_type_consts(rest_consts@, state@),
            ),
        decreases m - c,
    {
        let ghost remaining = rest_consts@;
        let (name, value, raw) = rest_consts.remove(0);
        assert(rest_consts@ =~= remaining.drop_first());
        let goal = raw_type_to_type(raw);
        let ghost before = typed@;
        let ghost s_before = state@;
        let tv = match parse_val(value, goal, &mut state) {
            Ok(tv) => tv,
            Err(e) => {
                assert(spec_type_consts(remaining, s_before) == Err::<Seq<(String, TypedValue)>, TypeError>(e));
                return Err(e);
            },
        };
        let ghost entry = (name, tv);
        typed.push((name, tv));
        proof {
            match spec_type_consts(rest_consts@, state@) {
                Ok(r) => {
                    assert(before + (seq![entry] + r) =~= typed@ + r);
                },
                Err(e) => {},
            }
            assert(raw_consts.skip(c + 1) =~= remaining.drop_first());
        }
        c = c + 1;
    }
    assert(typed@ + Seq::<(String, TypedValue)>::empty() =~= typed@);
    Ok((type_defs, typed))
}

/// A type with no unknowns in it.
pub open spec fn is_ground(t: Type) -> bool
    decreases t,
{
    match t {
        Type::Function(a, b) => is_ground(*a) && is_ground(*b),
        Type::Unknown(_) => false,
        _ => true,
    }
}

/// How deeply a type nests.
pub open spec fn type_depth(t: Type) -> nat
    decreases t,
{
    match t {
        Type::Function(a, b) => {
            let da = type_depth(*a);
            let db = type_depth(*b);
            1 + if da >= db {
                da
            } else {
                db
            }
        },
        _ => 1,
    }
}

/// A comparison that ends within `depth` levels gives the same answer, and
/// leaves the same bindings, with any larger allowance.
pub proof fn lemma_matches_monotone(u: Map<usize, Type>, t1: Type, t2: Type, depth: nat, more: nat)
    requires
        spec_matches(u, t1, t2, depth).0 is Some,
        depth <= more,
    ensures
        spec_matches(u, t1, t2, more) == spec_matches(u, t1, t2, depth),
    decreases depth,
{
    let d = (depth - 1) as nat;
    let m = (more - 1) as nat;
    match (t1, t2) {
        (Type::Function(a, b), Type::Function(c, e)) => {
            lemma_matches_monotone(u, *a, *c, d, m);
            let (_, u1) = spec_matches(u, *a, *c, d);
            lemma_matches_monotone(u1, *b, *e, d, m);
        },
        (Type::Unknown(a), Type::Unknown(b)) => {
            if u.contains_key(a) && u.contains_key(b) {
                lemma_matches_monotone(u, u[a], u[b], d, m);
            }
        },
        (typ, Type::Unknown(id)) => {
            if u.contains_key(id) {
                lemma_matches_monotone(u, typ, u[id], d, m);
            }
        },
        (Type::Unknown(id), typ) => {
            if u.contains_key(id) {
                lemma_matches_monotone(u, typ, u[id], d, m);
            }
        },
        _ => {},
    }
}

/// Every comparison that ends at all, within the levels of recursion a
/// machine can hold (`match_limit`), is finished by `State::matches`, with
/// the same answer and the same bindings: it gives up only on comparisons
/// that never end, which follow a cycle of bindings.
pub proof fn lemma_matches_finishes(u: Map<usize, Type>, t1: Type, t2: Type, depth: nat)
    requires
        spec_matches(u, t1, t2, depth).0 is Some,
        depth <= match_limit(),
    ensures
        spec_matches(u, t1, t2, match_limit()) == spec_matches(u, t1, t2, depth),
{
    lemma_matches_monotone(u, t1, t2, depth, match_limit());
}

/// Comparing a type without unknowns with another type without unknowns binds
/// nothing, and succeeds exactly when the two are the same type, unless it
/// gives up; it does not give up when `depth` covers the nesting of `t1`.
pub proof fn lemma_matches_ground_within(u: Map<usize, Type>, t1: Type, t2: Type, depth: nat)
    requires
        is_ground(t1),
        is_ground(t2),
    ensures
        spec_matches(u, t1, t2, depth).1 == u,
        spec_matches(u, t1, t2, depth).0 is None || spec_matches(u, t1, t2, depth).0 == Some(
            t1@ == t2@,
        ),
        type_depth(t1) <= depth ==> spec_matches(u, t1, t2, depth) == (Some(t1@ == t2@), u),
    decreases t1,
{
    if depth > 0 {
        match (t1, t2) {
            (Type::Function(a, b), Type::Function(c, e)) => {
                lemma_matches_ground_within(u, *a, *c, (depth - 1) as nat);
                lemma_matches_ground_within(u, *b, *e, (depth - 1) as nat);
            },
            _ => {},
        }
    }
}

/// Comparing two types without unknowns (`State::matches`) always finishes,
/// binds nothing, and succeeds exactly when the two are the same type. (The
/// bound on the depth is that of a `u64` counter: no type in memory nests
/// that deep.)
pub proof fn lemma_matches_ground(u: Map<usize, Type>, t1: Type, t2: Type)
    requires
        is_ground(t1),
        is_ground(t2),
        type_depth(t1) <= match_limit(),
    ensures
        spec_matches(u, t1, t2, match_limit()) == (Some(t1@ == t2@), u),
{
    lemma_matches_ground_within(u, t1, t2, match_limit());
}

/// Comparison does not depend on the order of its two sides, neither for the
/// answer nor for the bindings it leaves, whether it finishes or gives up.
pub proof fn lemma_matches_symmetric_within(u: Map<usize, Type>, t1: Type, t2: Type, depth: nat)
    ensures
        spec_matches(u, t1, t2, depth) == spec_matches(u, t2, t1, depth),
    decreases depth,
{
    if depth > 0 {
        let d = (depth - 1) as nat;
        match (t1, t2) {
            (Type::Function(a, b), Type::Function(c, e)) => {
                lemma_matches_symmetric_within(u, *a, *c, d);
                let (_, u1) = spec_matches(u, *a, *c, d);
                lemma_matches_symmetric_within(u1, *b, *e, d);
            },
            (Type::Unknown(a), Type::Unknown(b)) => {
                if u.contains_key(a) && u.contains_key(b) {
                    lemma_matches_symmetric_within(u, u[a], u[b], d);
                }
            },
            _ => {},
        }
    }
}

/// `State::matches` on two equal states gives the same answer, and leaves
/// the same bindings, whichever of the two types comes first.
pub proof fn lemma_matches_symmetric(u: Map<usize, Type>, t1: Type, t2: Type)
    ensures
        spec_matches(u, t1, t2, match_limit()) == spec_matches(u, t2, t1, match_limit()),
{
    lemma_matches_symmetric_within(u, t1, t2, match_limit());
}

/// Every binding is a type without unknowns.
pub open spec fn ground_bindings(u: Map<usize, Type>) -> bool {
    forall|k: usize| #[trigger] u.contains_key(k) ==> is_ground(u[k])
}

/// `s` binds every unknown that `u` binds, to a type with the same view.
pub open spec fn agrees(u: Map<usize, Type>, s: Map<usize, Type>) -> bool {
    forall|k: usize| #[trigger] u.contains_key(k) ==> s.contains_key(k) && s[k]@ == u[k]@
}

/// Replacing the unknowns of `t1` by their bindings in `s` gives `t2`.
pub open spec fn solves(s: Map<usize, Type>, t1: Type, t2: Type) -> bool {
    spec_instantiate_type(s, t1)@ == t2@
}

/// A type with the view of a type without unknowns has no unknowns.
proof fn lemma_view_ground(t: Type, g: Type)
    requires
        is_ground(g),
        t@ == g@,
    ensures
        is_ground(t),
    decreases t,
{
    if let (Type::Function(a, b), Type::Function(c, e)) = (t, g) {
        lemma_view_ground(*a, *c);
        lemma_view_ground(*b, *e);
    }
}

/// Where every unknown of `t` is bound in `u1`, further bindings do not change
/// what `t` becomes.
proof fn lemma_instantiate_extends(u1: Map<usize, Type>, u2: Map<usize, Type>, t: Type)
    requires
        extends(u1, u2),
        is_ground(spec_instantiate_type(u1, t)),
    ensures
        spec_instantiate_type(u2, t) == spec_instantiate_type(u1, t),
    decreases t,
{
    match t {
        Type::Function(a, b) => {
            lemma_instantiate_extends(u1, u2, *a);
            lemma_instantiate_extends(u1, u2, *b);
        },
        Type::Unknown(id) => {
            assert(u1.contains_key(id));
        },
        _ => {},
    }
}

/// Comparing any type with a type without unknowns, under bindings without
/// unknowns, does not give up when `depth` covers both nestings; the new
/// bindings have no unknowns, old ones stay; on success the bindings turn
/// `t1` into `t2`, and whenever any bindings that agree with the old ones turn
/// `t1` into `t2`, it succeeds and they agree with the new ones too.
pub proof fn lemma_matches_ground_target_within(u: Map<usize, Type>, t1: Type, t2: Type, depth: nat)
    requires
        is_ground(t2),
        ground_bindings(u),
        type_depth(t1) + type_depth(t2) <= depth,
    ensures
        spec_matches(u, t1, t2, depth).0 is Some,
        ({
            let (r, u2) = spec_matches(u, t1, t2, depth);
            &&& ground_bindings(u2)
            &&& extends(u, u2)
            &&& r == Some(true) ==> solves(u2, t1, t2)
            &&& forall|s: Map<usize, Type>| agrees(u, s) && #[trigger] solves(s, t1, t2) ==> r == Some(true)
                && agrees(u2, s)
        }),
    decreases t1,
{
    let d = (depth - 1) as nat;
    match t1 {
        Type::Function(a, b) => {
            if let Type::Function(c, e) = t2 {
                lemma_matches_ground_target_within(u, *a, *c, d);
                let (r1, u1) = spec_matches(u, *a, *c, d);
                lemma_matches_ground_target_within(u1, *b, *e, d);
                let (r2, u2) = spec_matches(u1, *b, *e, d);
                if r1 == Some(true) && r2 == Some(true) {
                    lemma_view_ground(spec_instantiate_type(u1, *a), *c);
                    lemma_instantiate_extends(u1, u2, *a);
                }
                assert forall|s: Map<usize, Type>| agrees(u, s) && #[trigger] solves(s, t1, t2) implies r1 == Some(
                    true,
                ) && r2 == Some(true) && agrees(u2, s) by {
                    assert(solves(s, *a, *c));
                    assert(solves(s, *b, *e));
                }
            }
        },
        Type::Unknown(id) => {
            if u.contains_key(id) {
                lemma_matches_ground_within(u, t2, u[id], d);
            } else {
                assert forall|s: Map<usize, Type>| agrees(u, s) && #[trigger] solves(s, t1, t2) implies agrees(
                    u.insert(id, t2),
                    s,
                ) by {
                    assert(s.contains_key(id));
                }
            }
        },
        _ => {},
    }
}

/// `State::matches` against a type without unknowns, with bindings without
/// unknowns, always finishes; it succeeds exactly when some bindings that
/// agree with the present ones turn `t1` into `t2`, and then its own do. It
/// only adds bindings, and those have no unknowns. (The bound on the depths
/// is that of a `u64` counter: no type in memory nests that deep.)
pub proof fn lemma_matches_ground_target(u: Map<usize, Type>, t1: Type, t2: Type)
    requires
        is_ground(t2),
        ground_bindings(u),
        type_depth(t1) + type_depth(t2) <= match_limit(),
    ensures
        spec_matches(u, t1, t2, match_limit()).0 is Some,
        ({
            let (r, u2) = spec_matches(u, t1, t2, match_limit());
            &&& ground_bindings(u2)
            &&& extends(u, u2)
            &&& r == Some(true) ==> solves(u2, t1, t2)
            &&& r == Some(true) <==> exists|s: Map<usize, Type>| agrees(u, s) && #[trigger] solves(s, t1, t2)
        }),
{
    lemma_matches_ground_target_within(u, t1, t2, match_limit());
    let (r, u2) = spec_matches(u, t1, t2, match_limit());
    if r == Some(true) {
        assert(agrees(u, u2));
        assert(solves(u2, t1, t2));
    }
}

/// Replacing bound unknowns leaves a type without unknowns as it is.
pub proof fn lemma_instantiate_ground(u: Map<usize, Type>, t: Type)
    requires
        is_ground(t),
    ensures
        spec_instantiate_type(u, t) == t,
    decreases t,
{
    if let Type::Function(a, b) = t {
        lemma_instantiate_ground(u, *a);
        lemma_instantiate_ground(u, *b);
    }
}

/// A written type stands for a type without unknowns.
pub proof fn lemma_raw_type_ground(t: RawType)
    ensures
        is_ground(spec_raw_type_to_type(t)),
    decreases t,
{
    if let RawType::Function(a, b) = t {
        lemma_raw_type_ground(*a);
        lemma_raw_type_ground(*b);
    }
}

/// Bringing a parameter into scope and taking it out again restores the scope.
pub proof fn lemma_temp_type_undo(consts: Map<Seq<char>, Type>, name: Seq<char>, t: Type)
    requires
        !consts.contains_key(name),
    ensures
        consts.insert(name, t).remove(name) == consts,
{
    assert(consts.insert(name, t).remove(name) =~= consts);
}

/// Handing out an unknown, binding it, and forgetting the unknowns from it on
/// restores the bindings (`remove_unknown` also resets the next unknown).
pub proof fn lemma_unknown_undo(s: TypingState, t: Type)
    requires
        s.curr < usize::MAX,
        !s.unknowns.contains_key(s.curr),
    ensures
        drop_unknowns(s.unknowns.insert(s.curr, t), s.curr, (s.curr + 1) as usize) == s.unknowns,
{
    assert(drop_unknowns(s.unknowns.insert(s.curr, t), s.curr, (s.curr + 1) as usize) =~= s.unknowns);
}

/// Typing a value leaves the names in scope, and their types, as they were.
pub proof fn lemma_parse_val_keeps_scope(value: Value, goal: Type, s: TypingState)
    ensures
        spec_parse_val(value, goal, s) matches Ok((_, s2)) ==> s2.consts == s.consts,
    decreases value,
{
    match value {
        Value::FunctionDefinition(x, _, body) => {
            if let Ok((inp, out, s1)) = function_goal(goal, s) {
                if !s1.consts.contains_key(x@) {
                    let inner = TypingState {
                        consts: s1.consts.insert(x@, inp),
                        unknowns: s1.unknowns,
                        curr: s1.curr,
                    };
                    lemma_parse_val_keeps_scope(*body, out, inner);
                    lemma_temp_type_undo(s1.consts, x@, inp);
                }
            }
        },
        Value::FunctionCall(func, arg) => {
            if s.curr < usize::MAX {
                let id = s.curr;
                let unk = Type::Unknown(id);
                let s1 = TypingState {
                consts: s.consts,
                unknowns: s.unknowns,
                curr: (id + 1) as usize,
            };
                lemma_parse_val_keeps_scope(*arg, unk, s1);
                if let Ok((_, s2)) = spec_parse_val(*arg, unk, s1) {
                    lemma_parse_val_keeps_scope(*func, Type::Function(Box::new(unk), Box::new(goal)), s2);
                }
            }
        },
        _ => {},
    }
}

/// Comparison only adds bindings, whether it finishes or gives up.
proof fn lemma_matches_extends(u: Map<usize, Type>, t1: Type, t2: Type, depth: nat)
    ensures
        extends(u, spec_matches(u, t1, t2, depth).1),
    decreases depth,
{
    if depth > 0 {
        let d = (depth - 1) as nat;
        match (t1, t2) {
            (Type::Function(a, b), Type::Function(c, e)) => {
                lemma_matches_extends(u, *a, *c, d);
                let (_, u1) = spec_matches(u, *a, *c, d);
                lemma_matches_extends(u1, *b, *e, d);
            },
            (Type::Unknown(a), Type::Unknown(b)) => {
                if u.contains_key(a) && u.contains_key(b) {
                    lemma_matches_extends(u, u[a], u[b], d);
                }
            },
            (typ, Type::Unknown(id)) => {
                if u.contains_key(id) {
                    lemma_matches_extends(u, typ, u[id], d);
                }
            },
            (Type::Unknown(id), typ) => {
                if u.contains_key(id) {
                    lemma_matches_extends(u, typ, u[id], d);
                }
            },
            _ => {},
        }
    }
}

/// `u2` holds every binding of `u` of an unknown below `n`, unchanged.
pub open spec fn extends_below(u: Map<usize, Type>, u2: Map<usize, Type>, n: usize) -> bool {
    forall|k: usize| #[trigger] u.contains_key(k) && k < n ==> u2.contains_key(k) && u2[k] == u[k]
}

/// No function written in `value` outside a call is typed against an unbound
/// unknown (with the bindings `u`): the only case in which typing leaves
/// fresh unknowns behind.
pub open spec fn keeps_next_unknown(value: Value, goal: Type, u: Map<usize, Type>) -> bool
    decreases value,
{
    match value {
        Value::FunctionDefinition(_, _, body) => match goal {
            Type::Function(_, o) => keeps_next_unknown(*body, *o, u),
            Type::Unknown(id) => if u.contains_key(id) {
                match u[id] {
                    Type::Function(_, o) => keeps_next_unknown(*body, *o, u),
                    _ => true,
                }
            } else {
                false
            },
            _ => true,
        },
        _ => true,
    }
}

/// Typing a value (`spec_parse_val`) only adds bindings to the unknowns
/// handed out before it, never lowers the next unknown, and
/// gives the next unknown back as it was unless a function is typed against
/// an unbound unknown outside any call (`keeps_next_unknown`); the scope is
/// kept too (`lemma_parse_val_keeps_scope`).
pub proof fn lemma_parse_val_restores(value: Value, goal: Type, s: TypingState)
    ensures
        spec_parse_val(value, goal, s) matches Ok((_, s2)) ==> {
            &&& s2.consts == s.consts
            &&& extends_below(s.unknowns, s2.unknowns, s.curr)
            &&& s.curr <= s2.curr
            &&& keeps_next_unknown(value, goal, s.unknowns) ==> s2.curr == s.curr
        },
    decreases value,
{
    lemma_parse_val_keeps_scope(value, goal, s);
    match value {
        Value::FunctionDefinition(x, _, body) => {
            if let Ok((inp, out, s1)) = function_goal(goal, s) {
                if !s1.consts.contains_key(x@) {
                    let inner = TypingState {
                        consts: s1.consts.insert(x@, inp),
                        unknowns: s1.unknowns,
                        curr: s1.curr,
                    };
                    lemma_parse_val_restores(*body, out, inner);
                    assert(s.curr <= s1.curr);
                    assert forall|k: usize| #[trigger] s.unknowns.contains_key(k) implies s1.unknowns.contains_key(k)
                        && s1.unknowns[k] == s.unknowns[k] by {}
                    if keeps_next_unknown(value, goal, s.unknowns) {
                        assert(s1 == s);
                    }
                }
            }
        },
        Value::FunctionCall(func, arg) => {
            if s.curr < usize::MAX {
                let id = s.curr;
                let unk = Type::Unknown(id);
                let s1 = TypingState {
                    consts: s.consts,
                    unknowns: s.unknowns,
                    curr: (id + 1) as usize,
                };
                lemma_parse_val_restores(*arg, unk, s1);
                if let Ok((_, s2)) = spec_parse_val(*arg, unk, s1) {
                    let g = Type::Function(Box::new(unk), Box::new(goal));
                    lemma_parse_val_restores(*func, g, s2);
                }
            }
        },
        Value::Constant(x) => {
            if s.consts.contains_key(x@) {
                lemma_matches_extends(s.unknowns, goal, s.consts[x@], match_limit());
            }
        },
        Value::Number(_) => {
            lemma_matches_extends(s.unknowns, goal, Type::Int, match_limit());
        },
        Value::Unit => {
            lemma_matches_extends(s.unknowns, goal, Type::Unit, match_limit());
        },
        _ => {},
    }
}

/// Where every bound unknown was handed out already, typing a value keeps
/// every binding, and (`keeps_next_unknown`) the next unknown.
pub proof fn lemma_parse_val_keeps_bindings(value: Value, goal: Type, s: TypingState)
    requires
        forall|k: usize| #[trigger] s.unknowns.contains_key(k) ==> k < s.curr,
    ensures
        spec_parse_val(value, goal, s) matches Ok((_, s2)) ==> {
            &&& s2.consts == s.consts
            &&& extends(s.unknowns, s2.unknowns)
            &&& keeps_next_unknown(value, goal, s.unknowns) ==> s2.curr == s.curr
        },
{
    lemma_parse_val_restores(value, goal, s);
}

/// The types in a scope have no unknowns.
pub open spec fn ground_scope(consts: Map<Seq<char>, Type>) -> bool {
    forall|k: Seq<char>| #[trigger] consts.contains_key(k) ==> is_ground(consts[k])
}

/// In a scope of types without unknowns, a value that type-checks against a
/// type without unknowns gets exactly that type.
pub proof fn lemma_parse_val_ground_type(value: Value, goal: Type, s: TypingState)
    requires
        is_ground(goal),
        ground_scope(s.consts),
    ensures
        spec_parse_val(value, goal, s) matches Ok((tv, _)) ==> tv.val_type@ == goal@,
{
    match value {
        Value::Constant(x) => {
            if s.consts.contains_key(x@) {
                lemma_matches_ground_within(s.unknowns, goal, s.consts[x@], match_limit());
            }
        },
        Value::Number(_) => {
            lemma_matches_ground_within(s.unknowns, goal, Type::Int, match_limit());
        },
        Value::Unit => {
            lemma_matches_ground_within(s.unknowns, goal, Type::Unit, match_limit());
        },
        _ => {},
    }
}

/// Checking constant definitions keeps their names and their order, and each
/// constant that checks gets exactly its declared type.
pub proof fn lemma_type_consts_declared(defs: Seq<(String, Value, RawType)>, s: TypingState)
    requires
        ground_scope(s.consts),
    ensures
        spec_type_consts(defs, s) matches Ok(r) ==> {
            &&& r.len() == defs.len()
            &&& forall|i: int| 0 <= i < defs.len() ==> {
                &&& (#[trigger] r[i]).0 == defs[i].0
                &&& r[i].1.val_type@ == spec_raw_type_to_type(defs[i].2)@
            }
        },
    decreases defs.len(),
{
    if defs.len() > 0 {
        let goal = spec_raw_type_to_type(defs[0].2);
        lemma_raw_type_ground(defs[0].2);
        lemma_parse_val_ground_type(defs[0].1, goal, s);
        lemma_parse_val_keeps_scope(defs[0].1, goal, s);
        if let Ok((tv, s2)) = spec_parse_val(defs[0].1, goal, s) {
            let rest = defs.drop_first();
            lemma_type_consts_declared(rest, s2);
            if let Ok(r) = spec_type_consts(defs, s) {
                let r2 = spec_type_consts(rest, s2)->Ok_0;
                assert forall|i: int| 0 <= i < defs.len() implies {
                    &&& (#[trigger] r[i]).0 == defs[i].0
                    &&& r[i].1.val_type@ == spec_raw_type_to_type(defs[i].2)@
                } by {
                    if i > 0 {
                        assert(r[i] == r2[i - 1]);
                        assert(rest[i - 1] == defs[i]);
                    }
                }
            }
        }
    }
}

/// The declared types of a program are all without unknowns.
pub proof fn lemma_initial_scope_ground(defs: Seq<(String, Value, RawType)>)
    ensures
        ground_scope(initial_state(defs).consts),
    decreases defs.len(),
{
    let ds = declared_types(defs);
    assert forall|k: Seq<char>| #[trigger] consts_of(ds).contains_key(k) implies is_ground(consts_of(ds)[k]) by {
        lemma_consts_of_ground(ds, k);
        assert forall|i: int| 0 <= i < ds.len() implies is_ground(#[trigger] ds[i].1) by {
            lemma_raw_type_ground(defs[i].2);
        }
    }
}

proof fn lemma_consts_of_ground(s: Seq<(String, Type)>, k: Seq<char>)
    ensures
        consts_of(s).contains_key(k) ==> exists|i: int| 0 <= i < s.len() && #[trigger] s[i].1 == consts_of(s)[k],
    decreases s.len(),
{
    if s.len() > 0 {
        lemma_consts_of_ground(s.drop_last(), k);
        if k != s.last().0@ && consts_of(s.drop_last()).contains_key(k) {
            let i = choose|i: int| 0 <= i < s.drop_last().len() && #[trigger] s.drop_last()[i].1 == consts_of(s.drop_last())[k];
            assert(s[i].1 == consts_of(s)[k]);
        } else if k == s.last().0@ {
            assert(s[s.len() - 1].1 == consts_of(s)[k]);
        }
    }
}

/// Every constant of a program that checks gets exactly its declared type;
/// the checked constants keep their names and their order.
pub proof fn lemma_checked_constants_have_declared_types(defs: Seq<(String, Value, RawType)>)
    ensures
        spec_type_consts(defs, initial_state(defs)) matches Ok(r) ==> {
            &&& r.len() == defs.len()
            &&& forall|i: int| 0 <= i < defs.len() ==> {
                &&& (#[trigger] r[i]).0 == defs[i].0
                &&& r[i].1.val_type@ == spec_raw_type_to_type(defs[i].2)@
            }
        },
{
    lemma_initial_scope_ground(defs);
    lemma_type_consts_declared(defs, initial_state(defs));
}


/// Comparing two unknowns: of two unbound ones the larger is bound to the
/// smaller; when one is bound and the other is not, the unbound one gets the
/// very same binding (so afterwards both stand for that type); when both are
/// bound their bindings are compared. Nothing else changes.
pub proof fn lemma_matches_two_unknowns(u: Map<usize, Type>, a: usize, b: usize, depth: nat)
    requires
        depth > 0,
    ensures
        ({
            let (r, u2) = spec_matches(u, Type::Unknown(a), Type::Unknown(b), depth);
            &&& !u.contains_key(a) && !u.contains_key(b) && a < b ==> r == Some(true) && u2 == u.insert(
                b,
                Type::Unknown(a),
            )
            &&& !u.contains_key(a) && !u.contains_key(b) && b < a ==> r == Some(true) && u2 == u.insert(
                a,
                Type::Unknown(b),
            )
            &&& !u.contains_key(a) && u.contains_key(b) ==> {
                &&& r == Some(true)
                &&& u2 == u.insert(a, u[b])
                &&& spec_instantiate_type(u2, Type::Unknown(a)) == u[b]
                &&& spec_instantiate_type(u2, Type::Unknown(b)) == u[b]
            }
            &&& u.contains_key(a) && !u.contains_key(b) ==> {
                &&& r == Some(true)
                &&& u2 == u.insert(b, u[a])
                &&& spec_instantiate_type(u2, Type::Unknown(a)) == u[a]
                &&& spec_instantiate_type(u2, Type::Unknown(b)) == u[a]
            }
            &&& u.contains_key(a) && u.contains_key(b) ==> (r, u2) == spec_matches(
                u,
                u[a],
                u[b],
                (depth - 1) as nat,
            )
        }),
{
}

/// Comparing an unknown with a type that is not an unknown, in either order:
/// an unbound unknown is bound to exactly that type; a bound one has its
/// binding compared with the type.
pub proof fn lemma_matches_unknown_with_type(u: Map<usize, Type>, id: usize, t: Type, depth: nat)
    requires
        depth > 0,
        !(t is Unknown),
    ensures
        !u.contains_key(id) ==> spec_matches(u, Type::Unknown(id), t, depth) == (
            Some(true),
            u.insert(id, t),
        ) && spec_matches(u, t, Type::Unknown(id), depth) == (Some(true), u.insert(id, t)),
        u.contains_key(id) ==> spec_matches(u, Type::Unknown(id), t, depth) == spec_matches(
            u,
            t,
            u[id],
            (depth - 1) as nat,
        ) && spec_matches(u, t, Type::Unknown(id), depth) == spec_matches(
            u,
            t,
            u[id],
            (depth - 1) as nat,
        ),
{
}

/// The type of a leaf value: a name has its type in scope, a number `Int`,
/// `()` the unit type; `None` for `|x| ..`, calls and `Match`.
pub open spec fn leaf_type(value: Value, consts: Map<Seq<char>, Type>) -> Option<Type> {
    match value {
        Value::Constant(x) => if consts.contains_key(x@) {
            Some(consts[x@])
        } else {
            None
        },
        Value::Number(_) => Some(Type::Int),
        Value::Unit => Some(Type::Unit),
        _ => None,
    }
}

/// A name, number or `()` type-checks exactly when comparing the expected
/// type with its own type succeeds; it then has its own type (not the
/// expected one), keeps its source, and leaves the scope and the next unknown
/// as they were, with the bindings the comparison made. Between types without
/// unknowns this means the expected type is its own type.
pub proof fn lemma_leaf_typing(value: Value, goal: Type, s: TypingState)
    requires
        leaf_type(value, s.consts) is Some,
    ensures
        ({
            let found = leaf_type(value, s.consts)->0;
            let m = spec_matches(s.unknowns, goal, found, match_limit());
            &&& spec_parse_val(value, goal, s) is Ok <==> m.0 == Some(true)
            &&& spec_parse_val(value, goal, s) is Ok ==> {
                let (tv, s2) = spec_parse_val(value, goal, s)->Ok_0;
                &&& tv.val_type == found
                &&& tv.val_source == match value {
                    Value::Constant(x) => ValueSource::Constant(x),
                    Value::Number(x) => ValueSource::Number(x),
                    _ => ValueSource::Unit,
                }
                &&& s2.consts == s.consts
                &&& s2.curr == s.curr
                &&& s2.unknowns == m.1
                &&& is_ground(goal) && is_ground(found) ==> goal@ == found@
            }
            &&& spec_parse_val(value, goal, s) is Err && m.0 == Some(false) ==> spec_parse_val(value, goal, s)
                == Err::<(TypedValue, TypingState), TypeError>(TypeError::Mismatch(goal, found))
        }),
{
    let found = leaf_type(value, s.consts)->0;
    if is_ground(goal) && is_ground(found) {
        lemma_matches_ground_within(s.unknowns, goal, found, match_limit());
    }
}

/// Every unknown in `t` is below `n`.
pub open spec fn unknowns_below(t: Type, n: usize) -> bool
    decreases t,
{
    match t {
        Type::Function(a, b) => unknowns_below(*a, n) && unknowns_below(*b, n),
        Type::Unknown(id) => id < n,
        _ => true,
    }
}

/// Every type anywhere in `v` has only unknowns below `n`.
pub open spec fn value_unknowns_below(v: TypedValue, n: usize) -> bool
    decreases v,
{
    &&& unknowns_below(v.val_type, n)
    &&& match v.val_source {
        ValueSource::FunctionDefinition(_, body) => value_unknowns_below(*body, n),
        ValueSource::FunctionCall(f, a) => value_unknowns_below(*f, n) && value_unknowns_below(*a, n),
        _ => true,
    }
}

/// `res` is `orig` with every type in it, at any depth, replaced by its
/// instance under `u`, and nothing else changed.
pub open spec fn instantiated_throughout(u: Map<usize, Type>, orig: TypedValue, res: TypedValue) -> bool
    decreases orig,
{
    &&& res.val_type == spec_instantiate_type(u, orig.val_type)
    &&& match (orig.val_source, res.val_source) {
        (ValueSource::FunctionDefinition(x, b), ValueSource::FunctionDefinition(y, c)) => x == y
            && instantiated_throughout(u, *b, *c),
        (ValueSource::FunctionCall(f, a), ValueSource::FunctionCall(g, c)) => instantiated_throughout(
            u,
            *f,
            *g,
        ) && instantiated_throughout(u, *a, *c),
        (o, r) => o == r && !(o is FunctionDefinition) && !(o is FunctionCall),
    }
}

/// With bindings without unknowns, a type whose unbound unknowns are below
/// `n` has, once instantiated, only unknowns below `n`.
proof fn lemma_instantiate_type_below(u: Map<usize, Type>, t: Type, n: usize)
    requires
        ground_bindings(u),
        resolved_from(u, t, n),
    ensures
        unknowns_below(spec_instantiate_type(u, t), n),
    decreases t,
{
    match t {
        Type::Function(a, b) => {
            lemma_instantiate_type_below(u, *a, n);
            lemma_instantiate_type_below(u, *b, n);
        },
        Type::Unknown(id) => {
            if u.contains_key(id) {
                lemma_ground_below(u[id], n);
            }
        },
        _ => {},
    }
}

proof fn lemma_ground_below(t: Type, n: usize)
    requires
        is_ground(t),
    ensures
        unknowns_below(t, n),
    decreases t,
{
    if let Type::Function(a, b) = t {
        lemma_ground_below(*a, n);
        lemma_ground_below(*b, n);
    }
}

/// Instantiating a value changes every type in it, at any depth, and
/// nothing else; with bindings without unknowns, a value whose unbound
/// unknowns are below `n` then has only unknowns below `n` anywhere.
pub proof fn lemma_instantiate_val_throughout(u: Map<usize, Type>, v: TypedValue, n: usize)
    ensures
        instantiated_throughout(u, v, spec_instantiate_val(u, v)),
        ground_bindings(u) && value_resolved_from(u, v, n) ==> value_unknowns_below(
            spec_instantiate_val(u, v),
            n,
        ),
    decreases v,
{
    match v.val_source {
        ValueSource::FunctionDefinition(_, body) => {
            lemma_instantiate_val_throughout(u, *body, n);
        },
        ValueSource::FunctionCall(f, a) => {
            lemma_instantiate_val_throughout(u, *f, n);
            lemma_instantiate_val_throughout(u, *a, n);
        },
        _ => {},
    }
    if ground_bindings(u) && value_resolved_from(u, v, n) {
        lemma_instantiate_type_below(u, v.val_type, n);
    }
}

/// Typing a call `f(a)` with the next unknown `U`: `a` is typed against
/// `U`, then `f` against `U -> goal`; the result has type `goal`, and its
/// parts are the typed `f` and `a` with every type in them, at any depth,
/// instantiated under the bindings reached; the unknowns from `U` on are
/// forgotten and `U` is next again. When those bindings have no unknowns,
/// no type anywhere in the typed call mentions an unknown from `U` on.
pub proof fn lemma_call_typing(func: Value, arg: Value, goal: Type, s: TypingState)
    requires
        s.curr < usize::MAX,
    ensures
        ({
            let id = s.curr;
            let unk = Type::Unknown(id);
            let s1 = TypingState { consts: s.consts, unknowns: s.unknowns, curr: (id + 1) as usize };
            let ra = spec_parse_val(arg, unk, s1);
            let (ta, s2) = ra->Ok_0;
            let rf = spec_parse_val(func, Type::Function(Box::new(unk), Box::new(goal)), s2);
            let (tf, s3) = rf->Ok_0;
            let r = spec_parse_val(Value::FunctionCall(Box::new(func), Box::new(arg)), goal, s);
            let (tv, s4) = r->Ok_0;
            r is Ok ==> {
                &&& ra is Ok
                &&& rf is Ok
                &&& tv.val_type == goal
                &&& tv.val_source is FunctionCall
                &&& instantiated_throughout(s3.unknowns, tf, *tv.val_source->FunctionCall_0)
                &&& instantiated_throughout(s3.unknowns, ta, *tv.val_source->FunctionCall_1)
                &&& s4.unknowns == drop_unknowns(s3.unknowns, id, s3.curr)
                &&& s4.curr == id
                &&& ground_bindings(s3.unknowns) ==> value_unknowns_below(*tv.val_source->FunctionCall_0, id)
                    && value_unknowns_below(*tv.val_source->FunctionCall_1, id)
            }
        }),
{
    let id = s.curr;
    let unk = Type::Unknown(id);
    let s1 = TypingState { consts: s.consts, unknowns: s.unknowns, curr: (id + 1) as usize };
    let ra = spec_parse_val(arg, unk, s1);
    if ra is Ok {
        let (ta, s2) = ra->Ok_0;
        let rf = spec_parse_val(func, Type::Function(Box::new(unk), Box::new(goal)), s2);
        if rf is Ok {
            let (tf, s3) = rf->Ok_0;
            lemma_instantiate_val_throughout(s3.unknowns, tf, id);
            lemma_instantiate_val_throughout(s3.unknowns, ta, id);
            lemma_parse_val_restores(func, Type::Function(Box::new(unk), Box::new(goal)), s2);
            lemma_parse_val_restores(arg, unk, s1);
        }
    }
}


/// Typing a function `|x| body` where `goal` is expected: the parameter
/// takes the parameter type of `goal` (of its binding, for a bound unknown),
/// the body is typed against the result type with `x` in scope, and the
/// function has type `goal`; `x` must not already name anything in scope.
/// A written parameter type plays no part.
pub proof fn lemma_function_typing(
    x: String,
    ann: Option<RawType>,
    other: Option<RawType>,
    body: Value,
    goal: Type,
    s: TypingState,
)
    ensures
        spec_parse_val(Value::FunctionDefinition(x, ann, Box::new(body)), goal, s) == spec_parse_val(
            Value::FunctionDefinition(x, other, Box::new(body)),
            goal,
            s,
        ),
        ({
            let r = spec_parse_val(Value::FunctionDefinition(x, ann, Box::new(body)), goal, s);
            let (tv, s2) = r->Ok_0;
            r is Ok ==> {
                &&& !s.consts.contains_key(x@)
                &&& tv.val_type == goal
                &&& tv.val_source is FunctionDefinition
                &&& tv.val_source->FunctionDefinition_0 == x
                &&& s2.consts == s.consts
                &&& goal matches Type::Function(i, o) ==> {
                    let inner = TypingState { consts: s.consts.insert(x@, *i), unknowns: s.unknowns, curr: s.curr };
                    spec_parse_val(body, *o, inner) is Ok && *tv.val_source->FunctionDefinition_1 == spec_parse_val(
                        body,
                        *o,
                        inner,
                    )->Ok_0.0
                }
            }
        }),
{
    lemma_parse_val_keeps_scope(Value::FunctionDefinition(x, ann, Box::new(body)), goal, s);
}

} // verus!
