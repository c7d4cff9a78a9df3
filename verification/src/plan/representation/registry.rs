//! Caller-registered functions (`Apply` bodies and fold monoids), parameter slots, and
//! the runtime values they compute on.

use vstd::prelude::*;
use super::expr::Literal;
use super::id::{ApplyId, MonoidId, DomNodeId, ParamId};

verus! {

broadcast use vstd::std_specs::vec::group_vec_axioms;

/// Runtime scalar or bag value.
#[derive(Debug)]
pub enum Value {
    Unit,
    /// Missing attribute (or another nullish projection).
    Null,
    Bool(bool),
    Int(i64),
    Str(String),
    Node(DomNodeId),
    List(Vec<Value>),
}

/// Model of a value: strings as character sequences, lists as sequences of models.
pub enum ValueM {
    Unit,
    Null,
    Bool(bool),
    Int(i64),
    Str(Seq<char>),
    Node(u64),
    List(Seq<ValueM>),
}

pub open spec fn value_view(v: Value) -> ValueM
    decreases v,
{
    match v {
        Value::Unit => ValueM::Unit,
        Value::Null => ValueM::Null,
        Value::Bool(b) => ValueM::Bool(b),
        Value::Int(n) => ValueM::Int(n),
        Value::Str(s) => ValueM::Str(s@),
        Value::Node(id) => ValueM::Node(id.0),
        Value::List(xs) => ValueM::List(
            Seq::new(
                xs@.len(),
                |i: int|
                    if 0 <= i < xs@.len() {
                        value_view(xs@[i])
                    } else {
                        ValueM::Unit
                    },
            ),
        ),
    }
}

impl View for Value {
    type V = ValueM;

    open spec fn view(&self) -> ValueM {
        value_view(*self)
    }
}

/// The models of a sequence of values.
pub open spec fn value_views(vs: Seq<Value>) -> Seq<ValueM> {
    Seq::new(vs.len(), |i: int| vs[i]@)
}

pub proof fn lemma_list_view(xs: Vec<Value>)
    ensures
        Value::List(xs)@ == ValueM::List(value_views(xs@)),
{
    if let ValueM::List(s) = value_view(Value::List(xs)) {
        assert(s =~= value_views(xs@));
    }
}

/// The model of a literal's value.
pub open spec fn literal_value(lit: Literal) -> ValueM {
    match lit {
        Literal::Unit => ValueM::Unit,
        Literal::Bool(b) => ValueM::Bool(b),
        Literal::Int(n) => ValueM::Int(n),
        Literal::Str(s) => ValueM::Str(s@),
    }
}

impl Value {
    pub fn str(s: &str) -> (r: Value)
        ensures
            r@ == ValueM::Str(s@),
    {
        Value::Str(s.to_string())
    }

    pub fn as_str(&self) -> (r: Option<&str>)
        ensures
            self@ matches ValueM::Str(s) ==> r matches Some(t) && t@ == s,
            !(self@ is Str) ==> r is None,
    {
        match self {
            Value::Str(s) => Some(s.as_str()),
            _ => None,
        }
    }

    pub fn as_list(&self) -> (r: Option<&[Value]>)
        ensures
            self@ matches ValueM::List(s) ==> r matches Some(t) && value_views(t@) == s,
            !(self@ is List) ==> r is None,
    {
        match self {
            Value::List(xs) => {
                proof {
                    lemma_list_view(*xs);
                }
                Some(xs.as_slice())
            },
            _ => None,
        }
    }

    /// The value of a literal.
    pub fn from_literal(lit: Literal) -> (r: Value)
        ensures
            r@ == literal_value(lit),
    {
        match lit {
            Literal::Unit => Value::Unit,
            Literal::Bool(b) => Value::Bool(b),
            Literal::Int(n) => Value::Int(n),
            Literal::Str(s) => Value::Str(s),
        }
    }

    /// A deep copy.
    pub fn copy(&self) -> (r: Value)
        ensures
            r@ == self@,
        decreases self,
    {
        match self {
            Value::Unit => Value::Unit,
            Value::Null => Value::Null,
            Value::Bool(b) => Value::Bool(*b),
            Value::Int(n) => Value::Int(*n),
            Value::Str(s) => Value::Str(s.clone()),
            Value::Node(id) => Value::Node(*id),
            Value::List(xs) => {
                let out = copy_values(xs);
                proof {
                    lemma_list_view(*xs);
                    lemma_list_view(out);
                }
                Value::List(out)
            },
        }
    }
}

/// Deep copies of `xs`.
pub fn copy_values(xs: &Vec<Value>) -> (r: Vec<Value>)
    ensures
        value_views(r@) == value_views(xs@),
    decreases xs,
{
    let mut out: Vec<Value> = Vec::new();
    let mut i: usize = 0;
    while i < xs.len()
        invariant
            i <= xs@.len(),
            value_views(out@) =~= value_views(xs@).take(i as int),
        decreases xs@.len() - i,
    {
        let c = xs[i].copy();
        let ghost before = value_views(out@);
        out.push(c);
        assert(value_views(out@) =~= before.push(c@));
        i = i + 1;
    }
    assert(value_views(xs@).take(xs@.len() as int) =~= value_views(xs@));
    out
}

/// A caller function applied to argument values (the body of an `Apply`).
pub trait ApplyFn {
    /// Whether the function may be called on `args`.
    spec fn accepts(&self, args: &[Value]) -> bool;

    /// `r` is a value the function may return on `args`.
    spec fn returns_on(&self, args: &[Value], r: Value) -> bool;

    fn call(&self, args: &[Value]) -> (r: Value)
        requires
            self.accepts(args),
        ensures
            self.returns_on(args, r),
    ;
}

impl<F: Fn(&[Value]) -> Value> ApplyFn for F {
    open spec fn accepts(&self, args: &[Value]) -> bool {
        call_requires(*self, (args,))
    }

    open spec fn returns_on(&self, args: &[Value], r: Value) -> bool {
        call_ensures(*self, (args,), r)
    }

    fn call(&self, args: &[Value]) -> (r: Value) {
        (*self)(args)
    }
}

/// The append of a fold monoid.
pub trait MonoidFn {
    /// Whether the append may be called on `acc` and `item`.
    spec fn accepts(&self, acc: Value, item: Value) -> bool;

    /// `r` is a value the append may return on `acc` and `item`.
    spec fn appends_to(&self, acc: Value, item: Value, r: Value) -> bool;

    fn append(&self, acc: Value, item: Value) -> (r: Value)
        requires
            self.accepts(acc, item),
        ensures
            self.appends_to(acc, item, r),
    ;
}

impl<F: Fn(Value, Value) -> Value> MonoidFn for F {
    open spec fn accepts(&self, acc: Value, item: Value) -> bool {
        call_requires(*self, (acc, item))
    }

    open spec fn appends_to(&self, acc: Value, item: Value, r: Value) -> bool {
        call_ensures(*self, (acc, item), r)
    }

    fn append(&self, acc: Value, item: Value) -> (r: Value) {
        (*self)(acc, item)
    }
}

/// The list monoid's append: the item pushed onto a list accumulator; any other
/// accumulator is kept.
pub open spec fn list_push_result(acc: Value, item: Value, r: Value) -> bool {
    &&& acc is List ==> r@ == ValueM::List(value_views(acc->List_0@).push(item@))
    &&& !(acc is List) ==> r == acc
}

/// The list monoid: appends each item to a list accumulator (an accumulator that is not
/// a list, which the list identity never leads to, is left as it is).
pub struct ListPush;

impl MonoidFn for ListPush {
    open spec fn accepts(&self, acc: Value, item: Value) -> bool {
        true
    }

    open spec fn appends_to(&self, acc: Value, item: Value, r: Value) -> bool {
        list_push_result(acc, item, r)
    }

    fn append(&self, acc: Value, item: Value) -> (r: Value)
        ensures
            acc is List ==> r@ == ValueM::List(value_views(acc->List_0@).push(item@)),
            !(acc is List) ==> r == acc,
    {
        match acc {
            Value::List(xs) => {
                let ghost old_views = value_views(xs@);
                let mut xs = xs;
                xs.push(item);
                proof {
                    lemma_list_view(xs);
                    assert(value_views(xs@) =~= old_views.push(item@));
                }
                Value::List(xs)
            },
            other => other,
        }
    }
}

/// A boxed caller function, in a list of one (a list keeps what Verus knows of its length).
/// The boxed function returns on each argument list what `f` may return on it: a call
/// through the box is a call of `f`.
#[verifier::external_body]
fn boxed_apply<F: Fn(&[Value]) -> Value + 'static>(f: F) -> (r: Vec<Box<dyn ApplyFn>>)
    ensures
        r@.len() == 1,
        forall|args: &[Value], out: Value| #[trigger] r@[0].returns_on(args, out) == call_ensures(f, (args,), out),
        forall|args: &[Value]| #[trigger] r@[0].accepts(args) == call_requires(f, (args,)),
{
    vec![Box::new(f)]
}

/// A boxed caller append, in a list of one.
/// The boxed append returns what `f` may return: a call through the box is a call of `f`.
#[verifier::external_body]
fn boxed_append<F: Fn(Value, Value) -> Value + 'static>(f: F) -> (r: Vec<Box<dyn MonoidFn>>)
    ensures
        r@.len() == 1,
        forall|acc: Value, item: Value, out: Value| #[trigger] r@[0].appends_to(acc, item, out) == call_ensures(f, (acc, item), out),
        forall|acc: Value, item: Value| #[trigger] r@[0].accepts(acc, item) == call_requires(f, (acc, item)),
{
    vec![Box::new(f)]
}

/// How a monoid appends.
pub enum MonoidAppend {
    /// [`ListPush`].
    List,
    /// The caller function at this index of the registry's caller appends.
    Caller(usize),
}

struct Monoid {
    identity: Value,
    append: MonoidAppend,
}

/// Caller-registered `Apply` functions, fold monoids and parameter slots of a plan.
pub struct Registry {
    applies: Vec<Box<dyn ApplyFn>>,
    appends: Vec<Box<dyn MonoidFn>>,
    monoids: Vec<Monoid>,
    params: Vec<Value>,
}

impl Registry {
    /// Every caller monoid points at a registered append.
    #[verifier::type_invariant]
    pub closed spec fn wf(&self) -> bool {
        forall|i: int| 0 <= i < self.monoids@.len() ==> match (#[trigger] self.monoids@[i]).append {
            MonoidAppend::List => true,
            MonoidAppend::Caller(k) => k < self.appends@.len(),
        }
    }

    pub closed spec fn spec_apply_count(&self) -> nat {
        self.applies@.len()
    }

    /// `r` is a value that `Apply` function `id` may return on `args`.
    pub closed spec fn spec_apply_returns(&self, id: int, args: &[Value], r: Value) -> bool {
        self.applies@[id].returns_on(args, r)
    }

    /// `Apply` function `id` may be called on `args`.
    pub closed spec fn spec_apply_accepts(&self, id: int, args: &[Value]) -> bool {
        self.applies@[id].accepts(args)
    }

    /// `Apply` function `id` may be called on every argument list of `arity` values.
    pub open spec fn apply_ready(&self, id: int, arity: nat) -> bool {
        forall|args: &[Value]| args@.len() == arity ==> #[trigger] self.spec_apply_accepts(id, args)
    }

    /// The `Apply` functions below `count` are those of `other`.
    pub open spec fn keeps_applies(&self, other: &Registry, count: nat) -> bool {
        &&& forall|i: int, args: &[Value], r: Value|
            0 <= i < count ==> #[trigger] self.spec_apply_returns(i, args, r) == other.spec_apply_returns(i, args, r)
        &&& forall|i: int, args: &[Value]|
            0 <= i < count ==> #[trigger] self.spec_apply_accepts(i, args) == other.spec_apply_accepts(i, args)
    }

    pub closed spec fn spec_monoid_count(&self) -> nat {
        self.monoids@.len()
    }

    pub closed spec fn spec_identity(&self, id: int) -> ValueM {
        self.monoids@[id].identity@
    }

    /// `r` is a value that monoid `id` may return when appending `item` to `acc`.
    pub closed spec fn spec_append_returns(&self, id: int, acc: Value, item: Value, r: Value) -> bool {
        match self.monoids@[id].append {
            MonoidAppend::List => list_push_result(acc, item, r),
            MonoidAppend::Caller(k) => self.appends@[k as int].appends_to(acc, item, r),
        }
    }

    /// Monoid `id` may append `item` to `acc`.
    pub closed spec fn spec_append_accepts(&self, id: int, acc: Value, item: Value) -> bool {
        match self.monoids@[id].append {
            MonoidAppend::List => true,
            MonoidAppend::Caller(k) => self.appends@[k as int].accepts(acc, item),
        }
    }

    /// Monoid `id` may append any item to any accumulator.
    pub open spec fn monoid_ready(&self, id: int) -> bool {
        forall|acc: Value, item: Value| #[trigger] self.spec_append_accepts(id, acc, item)
    }

    /// The monoids below `count` append as those of `other` do.
    pub open spec fn keeps_appends(&self, other: &Registry, count: nat) -> bool {
        &&& forall|i: int, acc: Value, item: Value, r: Value|
            0 <= i < count ==> #[trigger] self.spec_append_returns(i, acc, item, r) == other.spec_append_returns(i, acc, item, r)
        &&& forall|i: int, acc: Value, item: Value|
            0 <= i < count ==> #[trigger] self.spec_append_accepts(i, acc, item) == other.spec_append_accepts(i, acc, item)
    }

    /// Monoid `id` is the list monoid.
    pub closed spec fn spec_is_list(&self, id: int) -> bool {
        self.monoids@[id].append is List
    }

    pub closed spec fn spec_params(&self) -> Seq<ValueM> {
        value_views(self.params@)
    }

    pub fn new() -> (r: Registry)
        ensures
            r.wf(),
            r.spec_apply_count() == 0,
            r.spec_monoid_count() == 0,
            r.spec_params() == Seq::<ValueM>::empty(),
    {
        let r = Registry { applies: Vec::new(), appends: Vec::new(), monoids: Vec::new(), params: Vec::new() };
        assert(value_views(r.params@) =~= Seq::<ValueM>::empty());
        r
    }

    /// Registers `f` and returns its id, the next free one.
    pub fn register_apply<F: Fn(&[Value]) -> Value + 'static>(&mut self, f: F) -> (r: ApplyId)
        requires
            old(self).spec_apply_count() < u64::MAX,
        ensures
            final(self).wf(),
            r.0 == old(self).spec_apply_count(),
            final(self).keeps_applies(old(self), old(self).spec_apply_count()),
            final(self).keeps_appends(old(self), old(self).spec_monoid_count()),
            forall|args: &[Value], out: Value| #[trigger] final(self).spec_apply_returns(r.0 as int, args, out) == call_ensures(f, (args,), out),
            forall|args: &[Value]| #[trigger] final(self).spec_apply_accepts(r.0 as int, args) == call_requires(f, (args,)),
            final(self).spec_apply_count() == old(self).spec_apply_count() + 1,
            final(self).spec_monoid_count() == old(self).spec_monoid_count(),
            final(self).spec_params() == old(self).spec_params(),
            forall|i: int| 0 <= i < old(self).spec_monoid_count() ==> final(self).spec_identity(i) == old(self).spec_identity(i),
            forall|i: int| 0 <= i < old(self).spec_monoid_count() ==> final(self).spec_is_list(i) == old(self).spec_is_list(i),
    {
        proof {
            use_type_invariant(&*self);
        }
        let id = ApplyId::new(self.applies.len() as u64);
        let mut one = boxed_apply(f);
        let mut applies: Vec<Box<dyn ApplyFn>> = Vec::new();
        std::mem::swap(&mut applies, &mut self.applies);
        let ghost before = applies@;
        let ghost added = one@;
        applies.append(&mut one);
        assert(applies@ == before + added);
        std::mem::swap(&mut applies, &mut self.applies);
        id
    }

    fn push_monoid(&mut self, monoid: Monoid) -> (r: MonoidId)
        requires
            old(self).spec_monoid_count() < u64::MAX,
            monoid.append matches MonoidAppend::Caller(k) ==> k < old(self).appends@.len(),
        ensures
            final(self).wf(),
            r.0 == old(self).spec_monoid_count(),
            final(self).monoids@ == old(self).monoids@.push(monoid),
            final(self).applies@ == old(self).applies@,
            final(self).appends@ == old(self).appends@,
            final(self).params@ == old(self).params@,
    {
        proof {
            use_type_invariant(&*self);
        }
        let id = MonoidId::new(self.monoids.len() as u64);
        let mut monoids: Vec<Monoid> = Vec::new();
        std::mem::swap(&mut monoids, &mut self.monoids);
        monoids.push(monoid);
        std::mem::swap(&mut monoids, &mut self.monoids);
        proof {
            use_type_invariant(&*self);
        }
        id
    }

    /// Registers a fold monoid `(identity, append)` and returns its id, the next free one.
    pub fn register_monoid<F: Fn(Value, Value) -> Value + 'static>(&mut self, identity: Value, append: F) -> (r: MonoidId)
        requires
            old(self).spec_monoid_count() < u64::MAX,
        ensures
            final(self).wf(),
            r.0 == old(self).spec_monoid_count(),
            final(self).spec_monoid_count() == old(self).spec_monoid_count() + 1,
            final(self).spec_apply_count() == old(self).spec_apply_count(),
            final(self).keeps_applies(old(self), old(self).spec_apply_count()),
            final(self).keeps_appends(old(self), old(self).spec_monoid_count()),
            final(self).spec_params() == old(self).spec_params(),
            final(self).spec_identity(r.0 as int) == identity@,
            !final(self).spec_is_list(r.0 as int),
            forall|acc: Value, item: Value, out: Value| #[trigger] final(self).spec_append_returns(r.0 as int, acc, item, out) == call_ensures(append, (acc, item), out),
            forall|acc: Value, item: Value| #[trigger] final(self).spec_append_accepts(r.0 as int, acc, item) == call_requires(append, (acc, item)),
            forall|i: int| 0 <= i < old(self).spec_monoid_count() ==> final(self).spec_identity(i) == old(self).spec_identity(i),
            forall|i: int| 0 <= i < old(self).spec_monoid_count() ==> final(self).spec_is_list(i) == old(self).spec_is_list(i),
    {
        proof {
            use_type_invariant(&*self);
        }
        let k = self.appends.len();
        let mut one = boxed_append(append);
        let mut monoids: Vec<Monoid> = Vec::new();
        std::mem::swap(&mut monoids, &mut self.monoids);
        let mut appends: Vec<Box<dyn MonoidFn>> = Vec::new();
        std::mem::swap(&mut appends, &mut self.appends);
        let ghost before = appends@;
        let ghost added = one@;
        appends.append(&mut one);
        assert(appends@ == before + added);
        std::mem::swap(&mut appends, &mut self.appends);
        std::mem::swap(&mut monoids, &mut self.monoids);
        self.push_monoid(Monoid { identity, append: MonoidAppend::Caller(k) })
    }

    /// Registers the list monoid (identity `[]`, append pushes the item) and returns its id.
    pub fn register_list_monoid(&mut self) -> (r: MonoidId)
        requires
            old(self).spec_monoid_count() < u64::MAX,
        ensures
            final(self).wf(),
            r.0 == old(self).spec_monoid_count(),
            final(self).spec_monoid_count() == old(self).spec_monoid_count() + 1,
            final(self).spec_apply_count() == old(self).spec_apply_count(),
            final(self).keeps_applies(old(self), old(self).spec_apply_count()),
            final(self).keeps_appends(old(self), old(self).spec_monoid_count()),
            final(self).spec_params() == old(self).spec_params(),
            final(self).spec_identity(r.0 as int) == ValueM::List(Seq::empty()),
            final(self).spec_is_list(r.0 as int),
            forall|acc: Value, item: Value, out: Value| #[trigger] final(self).spec_append_returns(r.0 as int, acc, item, out) == list_push_result(acc, item, out),
            final(self).monoid_ready(r.0 as int),
            forall|i: int| 0 <= i < old(self).spec_monoid_count() ==> final(self).spec_identity(i) == old(self).spec_identity(i),
            forall|i: int| 0 <= i < old(self).spec_monoid_count() ==> final(self).spec_is_list(i) == old(self).spec_is_list(i),
    {
        let empty: Vec<Value> = Vec::new();
        proof {
            lemma_list_view(empty);
            assert(value_views(empty@) =~= Seq::<ValueM>::empty());
        }
        let identity = Value::List(empty);
        self.push_monoid(Monoid { identity, append: MonoidAppend::List })
    }

    /// Sets parameter `id` to `value`, growing the slots with `Unit` as needed.
    pub fn set_param(&mut self, id: ParamId, value: Value)
        requires
            id.0 < usize::MAX,
        ensures
            final(self).wf(),
            final(self).spec_apply_count() == old(self).spec_apply_count(),
            final(self).keeps_applies(old(self), old(self).spec_apply_count()),
            final(self).keeps_appends(old(self), old(self).spec_monoid_count()),
            final(self).spec_monoid_count() == old(self).spec_monoid_count(),
            forall|i: int| 0 <= i < old(self).spec_monoid_count() ==> final(self).spec_identity(i) == old(self).spec_identity(i),
            forall|i: int| 0 <= i < old(self).spec_monoid_count() ==> final(self).spec_is_list(i) == old(self).spec_is_list(i),
            final(self).spec_params().len() == (if old(self).spec_params().len() > id.0 {
                old(self).spec_params().len() as int
            } else {
                id.0 + 1
            }),
            final(self).spec_params()[id.0 as int] == value@,
            forall|i: int| 0 <= i < final(self).spec_params().len() && i != id.0 ==> #[trigger] final(self).spec_params()[i]
                == if i < old(self).spec_params().len() { old(self).spec_params()[i] } else { ValueM::Unit },
    {
        proof {
            use_type_invariant(&*self);
        }
        let i = id.0 as usize;
        let ghost before = value_views(self.params@);
        let mut params: Vec<Value> = Vec::new();
        std::mem::swap(&mut params, &mut self.params);
        while params.len() <= i
            invariant
                i < usize::MAX,
                value_views(params@).len() >= before.len(),
                forall|j: int| 0 <= j < value_views(params@).len() ==> #[trigger] value_views(params@)[j]
                    == if j < before.len() { before[j] } else { ValueM::Unit },
                params@.len() <= (if before.len() > i { before.len() as int } else { i + 1 }),
            decreases i + 1 - params@.len(),
        {
            let ghost prev = params@;
            params.push(Value::Unit);
            assert(value_views(params@) =~= value_views(prev).push(ValueM::Unit));
        }
        let ghost grown = params@;
        params.set(i, value);
        assert(value_views(params@) =~= value_views(grown).update(i as int, value@));
        std::mem::swap(&mut params, &mut self.params);
    }

    /// Number of registered `Apply` functions.
    pub fn apply_count(&self) -> (r: usize)
        ensures
            r == self.spec_apply_count(),
    {
        self.applies.len()
    }

    /// Number of registered monoids.
    pub fn monoid_count(&self) -> (r: usize)
        ensures
            r == self.spec_monoid_count(),
    {
        self.monoids.len()
    }

    /// Number of parameter slots.
    pub fn param_count(&self) -> (r: usize)
        ensures
            r == self.spec_params().len(),
    {
        self.params.len()
    }

    /// Runs `Apply` function `id` on `args`.
    pub fn apply(&self, id: ApplyId, args: &[Value]) -> (r: Value)
        requires
            id.0 < self.spec_apply_count(),
            self.spec_apply_accepts(id.0 as int, args),
        ensures
            self.spec_apply_returns(id.0 as int, args, r),
    {
        let n = self.applies.len();
        let i = id.0 as usize;
        self.applies[i].call(args)
    }

    /// A copy of monoid `id`'s identity.
    pub fn monoid_identity(&self, id: MonoidId) -> (r: Value)
        requires
            id.0 < self.spec_monoid_count(),
        ensures
            r@ == self.spec_identity(id.0 as int),
    {
        let n = self.monoids.len();
        let i = id.0 as usize;
        self.monoids[i].identity.copy()
    }

    /// Appends `item` to `acc` with monoid `id`.
    pub fn monoid_append(&self, id: MonoidId, acc: Value, item: Value) -> (r: Value)
        requires
            id.0 < self.spec_monoid_count(),
            self.spec_append_accepts(id.0 as int, acc, item),
        ensures
            self.spec_is_list(id.0 as int) && acc is List ==> r@ == ValueM::List(value_views(acc->List_0@).push(item@)),
            self.spec_append_returns(id.0 as int, acc, item, r),
    {
        proof {
            use_type_invariant(self);
        }
        let n = self.monoids.len();
        let i = id.0 as usize;
        match &self.monoids[i].append {
            MonoidAppend::List => ListPush.append(acc, item),
            MonoidAppend::Caller(k) => self.appends[*k].append(acc, item),
        }
    }

    /// Parameter `id`.
    pub fn param(&self, id: ParamId) -> (r: &Value)
        requires
            id.0 < self.spec_params().len(),
        ensures
            r@ == self.spec_params()[id.0 as int],
    {
        let n = self.params.len();
        let i = id.0 as usize;
        &self.params[i]
    }
}

} // verus!
