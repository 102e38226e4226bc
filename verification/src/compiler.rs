//! Compilation of named expressions into expressions over dense variable
//! numbers.
use core::ops::Neg;
use crate::binary64::Binary64;
use crate::elementary;
use crate::elementary::Elementary;
use crate::exp::Exp;
use vstd::prelude::*;

verus! {

/// Why a system does not compile.
#[derive(Debug, Copy, Clone, PartialEq, Eq, Structural)]
pub enum CompileError {
    /// A variable has the empty name.
    EmptyVariableName,
}

impl CompileError {
    /// The error in words.
    pub open spec fn text(self) -> Seq<char> {
        match self {
            CompileError::EmptyVariableName => "Variable name cannot be empty"@,
        }
    }

    /// The error in words.
    pub fn message(&self) -> (r: String)
        ensures
            r@ == self.text(),
    {
        match self {
            CompileError::EmptyVariableName => "Variable name cannot be empty".to_owned(),
        }
    }
}

/// Number of a variable in one compiled system.
#[derive(Debug, Copy, Clone, PartialEq, Eq, Hash, PartialOrd, Ord, Structural)]
pub struct VarId {
    pub index: usize,
}

impl VarId {
    /// The variable with a number.
    pub fn new(id: usize) -> (r: VarId)
        ensures
            r == (VarId { index: id }),
    {
        VarId { index: id }
    }
}

/// A list of names after the names of some occurrences that it lacks were
/// added, in order.
pub open spec fn extended(names: Seq<Seq<char>>, occurrences: Seq<Seq<char>>) -> Seq<Seq<char>>
    decreases occurrences.len(),
{
    if occurrences.len() == 0 {
        names
    } else {
        let head = extended(names, occurrences.drop_last());
        if head.contains(occurrences.last()) {
            head
        } else {
            head.push(occurrences.last())
        }
    }
}

/// The names in the order in which they first occur.
pub open spec fn first_seen(occurrences: Seq<Seq<char>>) -> Seq<Seq<char>> {
    extended(Seq::empty(), occurrences)
}

/// One of the names is empty.
pub open spec fn has_empty_name(occurrences: Seq<Seq<char>>) -> bool {
    exists|i: int| 0 <= i < occurrences.len() && (#[trigger] occurrences[i]).len() == 0
}

/// The names before the first empty one.
pub open spec fn before_empty(occurrences: Seq<Seq<char>>) -> Seq<Seq<char>>
    decreases occurrences.len(),
{
    if occurrences.len() == 0 {
        occurrences
    } else {
        let head = occurrences.drop_last();
        if before_empty(head) == head && occurrences.last().len() > 0 {
            occurrences
        } else {
            before_empty(head)
        }
    }
}

/// The occurrences in a list of equations, in order.
pub open spec fn all_occurrences(equations: Seq<Exp>) -> Seq<Seq<char>>
    decreases equations.len(),
{
    if equations.len() == 0 {
        Seq::empty()
    } else {
        all_occurrences(equations.drop_last()) + equations.last().occurrences()
    }
}

/// The variable that a list of names gives to a name.
pub open spec fn number_of(names: Seq<Seq<char>>, name: Seq<char>) -> VarId {
    VarId { index: names.index_of(name) as usize }
}

/// Names and numbers of the variables of one compiled system.
#[derive(Debug)]
pub struct VarTable {
    names: Vec<String>,
}

/// The texts of a list of strings.
pub open spec fn texts(strings: Seq<String>) -> Seq<Seq<char>> {
    strings.map_values(|s: String| s@)
}

impl View for VarTable {
    type V = Seq<Seq<char>>;

    closed spec fn view(&self) -> Seq<Seq<char>> {
        texts(self.names@)
    }
}

impl Clone for VarTable {
    fn clone(&self) -> (r: VarTable)
        ensures
            r@ == self@,
    {
        let mut names: Vec<String> = Vec::new();
        let mut i: usize = 0;
        while i < self.names.len()
            invariant
                i <= self.names.len(),
                names@.len() == i,
                forall|k: int| 0 <= k < i ==> names@[k]@ == self.names@[k]@,
            decreases self.names.len() - i,
        {
            names.push(self.names[i].clone());
            i = i + 1;
        }
        let r = VarTable { names };
        assert(r@ =~= self@);
        r
    }
}

impl VarTable {
    /// No name is empty and none occurs twice.
    pub open spec fn wf(self) -> bool {
        &&& self@.no_duplicates()
        &&& forall|i: int| 0 <= i < self@.len() ==> (#[trigger] self@[i]).len() > 0
    }

    /// There are no more names than a machine word counts.
    proof fn lemma_len(&self)
        ensures
            self@.len() <= usize::MAX,
    {
        assert(self@.len() == self.names.len());
    }

    /// A table without variables.
    pub fn new() -> (r: VarTable)
        ensures
            r@ == Seq::<Seq<char>>::empty(),
            r.wf(),
    {
        let r = VarTable { names: Vec::new() };
        assert(r@ =~= Seq::<Seq<char>>::empty());
        r
    }

    /// The variable with a name, which gets the next number where it is new.
    pub fn register(&mut self, name: &str) -> (r: Result<VarId, CompileError>)
        requires
            old(self).wf(),
        ensures
            final(self).wf(),
            match r {
                Err(error) => name@.len() == 0 && error == CompileError::EmptyVariableName
                    && final(self)@ == old(self)@,
                Ok(id) => name@.len() > 0 && final(self)@ == (if old(self)@.contains(name@) {
                    old(self)@
                } else {
                    old(self)@.push(name@)
                }) && id.index < final(self)@.len() && final(self)@[id.index as int] == name@
                    && id == number_of(final(self)@, name@),
            },
    {
        if name.is_empty() {
            proof {
                lemma_empty_text(name);
            }
            return Err(CompileError::EmptyVariableName);
        }
        proof {
            lemma_empty_text(name);
        }
        match self.get_id(name) {
            Some(id) => {
                return Ok(id);
            },
            None => {},
        }
        let id = VarId::new(self.names.len());
        let ghost before = self@;
        self.names.push(name.to_owned());
        proof {
            assert(self@ =~= before.push(name@));
            assert(self@.len() == self.names.len());
            lemma_number(self@, id.index as int);
        }
        Ok(id)
    }

    /// The variable with a name, where there is one.
    pub fn get_id(&self, name: &str) -> (r: Option<VarId>)
        requires
            self.wf(),
        ensures
            match r {
                None => !self@.contains(name@),
                Some(id) => id.index < self@.len() && self@[id.index as int] == name@ && id
                    == number_of(self@, name@),
            },
    {
        let wanted: String = name.to_owned();
        let mut i: usize = 0;
        while i < self.names.len()
            invariant
                i <= self.names.len(),
                self.wf(),
                wanted@ == name@,
                forall|k: int| 0 <= k < i ==> #[trigger] self@[k] != name@,
            decreases self.names.len() - i,
        {
            if self.names[i] == wanted {
                proof {
                    assert(self@[i as int] == name@);
                    lemma_number(self@, i as int);
                }
                return Some(VarId::new(i));
            }
            i = i + 1;
        }
        None
    }

    /// Number of variables.
    pub fn len(&self) -> (r: usize)
        ensures
            r == self@.len(),
    {
        self.names.len()
    }

    /// All variables, in the order of their numbers.
    pub fn all_var_ids(&self) -> (r: Vec<VarId>)
        ensures
            r@ == Seq::new(self@.len(), |i: int| VarId { index: i as usize }),
            r@.no_duplicates(),
    {
        let mut r: Vec<VarId> = Vec::new();
        let mut i: usize = 0;
        while i < self.names.len()
            invariant
                i <= self.names.len(),
                r@ =~= Seq::new(i as nat, |k: int| VarId { index: k as usize }),
            decreases self.names.len() - i,
        {
            r.push(VarId::new(i));
            i = i + 1;
        }
        r
    }

    /// The name of a variable.
    pub fn name(&self, i: usize) -> (r: &String)
        requires
            i < self@.len(),
        ensures
            r@ == self@[i as int],
    {
        &self.names[i]
    }

    /// All names, in the order of their numbers.
    pub fn names(&self) -> (r: &[String])
        ensures
            texts(r@) == self@,
    {
        self.names.as_slice()
    }
}

/// A text is empty where it has no characters.
proof fn lemma_empty_text(s: &str)
    ensures
        s.is_empty() <==> s@.len() == 0,
{
}

/// Where no name occurs twice, a name's number is its place.
proof fn lemma_number(names: Seq<Seq<char>>, i: int)
    requires
        names.no_duplicates(),
        0 <= i < names.len(),
        names.len() <= usize::MAX,
    ensures
        number_of(names, names[i]) == (VarId { index: i as usize }),
        names.index_of(names[i]) == i,
{
    let k = names.index_of(names[i]);
    assert(names[i] == names[i]);
    assert(0 <= k < names.len() && names[k] == names[i]);
}

/// A compiled expression met a variable without a value.
#[derive(Debug, PartialEq, Eq)]
pub struct EvaluationError {
    /// Name of that variable.
    pub variable_name: String,
}

impl EvaluationError {
    /// The error for a variable.
    pub fn missing_variable(variable_name: &str) -> (r: EvaluationError)
        ensures
            r.variable_name@ == variable_name@,
    {
        EvaluationError { variable_name: variable_name.to_owned() }
    }
}

/// Values of variables by number.
#[derive(Debug)]
pub struct Assignment {
    slots: Vec<Option<Binary64>>,
}

impl View for Assignment {
    type V = Map<usize, Binary64>;

    closed spec fn view(&self) -> Map<usize, Binary64> {
        Map::new(
            |i: usize| i < self.slots@.len() && self.slots@[i as int] is Some,
            |i: usize| self.slots@[i as int]->0,
        )
    }
}

impl Clone for Assignment {
    fn clone(&self) -> (r: Assignment)
        ensures
            r@ == self@,
    {
        let mut slots: Vec<Option<Binary64>> = Vec::new();
        let mut i: usize = 0;
        while i < self.slots.len()
            invariant
                i <= self.slots.len(),
                slots@ =~= self.slots@.take(i as int),
            decreases self.slots.len() - i,
        {
            slots.push(self.slots[i]);
            i = i + 1;
        }
        assert(slots@ =~= self.slots@);
        Assignment { slots }
    }
}

impl Assignment {
    /// No variable has a value.
    pub fn new() -> (r: Assignment)
        ensures
            r@ == Map::<usize, Binary64>::empty(),
    {
        let r = Assignment { slots: Vec::new() };
        assert(r@ =~= Map::<usize, Binary64>::empty());
        r
    }

    /// Give a variable a value.
    pub fn insert(&mut self, id: VarId, value: Binary64)
        requires
            id.index < usize::MAX,
        ensures
            final(self)@ == old(self)@.insert(id.index, value),
    {
        let ghost before = self@;
        while self.slots.len() <= id.index
            invariant
                id.index < usize::MAX,
                self@ =~= before,
            decreases id.index + 1 - self.slots@.len(),
        {
            self.slots.push(None);
        }
        self.slots.set(id.index, Some(value));
        assert(self@ =~= before.insert(id.index, value));
    }

    /// The value of a variable, where it has one.
    pub fn get(&self, id: VarId) -> (r: Option<Binary64>)
        ensures
            r == (if self@.dom().contains(id.index) {
                Some(self@[id.index])
            } else {
                None
            }),
    {
        if id.index < self.slots.len() {
            self.slots[id.index]
        } else {
            None
        }
    }
}

/// Expression over variable numbers; names are kept for messages.
#[derive(Debug, PartialEq)]
pub enum CompiledExp {
    Val(Binary64),
    Var(String, VarId),
    Add(Box<CompiledExp>, Box<CompiledExp>),
    Sub(Box<CompiledExp>, Box<CompiledExp>),
    Mul(Box<CompiledExp>, Box<CompiledExp>),
    Div(Box<CompiledExp>, Box<CompiledExp>),
    Power(Box<CompiledExp>, Binary64),
    Neg(Box<CompiledExp>),
    Sin(Box<CompiledExp>),
    Cos(Box<CompiledExp>),
    Ln(Box<CompiledExp>),
    Exp(Box<CompiledExp>),
}

impl Clone for CompiledExp {
    fn clone(&self) -> (r: CompiledExp)
        ensures
            r == *self,
        decreases self,
    {
        match self {
            CompiledExp::Val(v) => CompiledExp::Val(*v),
            CompiledExp::Var(name, id) => CompiledExp::Var(name.clone(), *id),
            CompiledExp::Add(a, b) => CompiledExp::Add(
                Box::new((&**a).clone()),
                Box::new((&**b).clone()),
            ),
            CompiledExp::Sub(a, b) => CompiledExp::Sub(
                Box::new((&**a).clone()),
                Box::new((&**b).clone()),
            ),
            CompiledExp::Mul(a, b) => CompiledExp::Mul(
                Box::new((&**a).clone()),
                Box::new((&**b).clone()),
            ),
            CompiledExp::Div(a, b) => CompiledExp::Div(
                Box::new((&**a).clone()),
                Box::new((&**b).clone()),
            ),
            CompiledExp::Power(a, p) => CompiledExp::Power(Box::new((&**a).clone()), *p),
            CompiledExp::Neg(a) => CompiledExp::Neg(Box::new((&**a).clone())),
            CompiledExp::Sin(a) => CompiledExp::Sin(Box::new((&**a).clone())),
            CompiledExp::Cos(a) => CompiledExp::Cos(Box::new((&**a).clone())),
            CompiledExp::Ln(a) => CompiledExp::Ln(Box::new((&**a).clone())),
            CompiledExp::Exp(a) => CompiledExp::Exp(Box::new((&**a).clone())),
        }
    }
}

/// The expression with each name numbered by its place in a list of names.
pub open spec fn indexed(e: Exp, names: Seq<Seq<char>>) -> CompiledExp
    decreases e,
{
    match e {
        Exp::Val(v) => CompiledExp::Val(v),
        Exp::Var(name) => CompiledExp::Var(name, number_of(names, name@)),
        Exp::Add(a, b) => CompiledExp::Add(
            Box::new(indexed(*a, names)),
            Box::new(indexed(*b, names)),
        ),
        Exp::Sub(a, b) => CompiledExp::Sub(
            Box::new(indexed(*a, names)),
            Box::new(indexed(*b, names)),
        ),
        Exp::Mul(a, b) => CompiledExp::Mul(
            Box::new(indexed(*a, names)),
            Box::new(indexed(*b, names)),
        ),
        Exp::Div(a, b) => CompiledExp::Div(
            Box::new(indexed(*a, names)),
            Box::new(indexed(*b, names)),
        ),
        Exp::Power(a, p) => CompiledExp::Power(Box::new(indexed(*a, names)), p),
        Exp::Neg(a) => CompiledExp::Neg(Box::new(indexed(*a, names))),
        Exp::Sin(a) => CompiledExp::Sin(Box::new(indexed(*a, names))),
        Exp::Cos(a) => CompiledExp::Cos(Box::new(indexed(*a, names))),
        Exp::Ln(a) => CompiledExp::Ln(Box::new(indexed(*a, names))),
        Exp::Exp(a) => CompiledExp::Exp(Box::new(indexed(*a, names))),
    }
}

impl CompiledExp {
    /// The variables that occur.
    pub open spec fn variables(self) -> Set<usize>
        decreases self,
    {
        match self {
            CompiledExp::Val(_) => Set::empty(),
            CompiledExp::Var(_, id) => set![id.index],
            CompiledExp::Add(a, b) => a.variables().union(b.variables()),
            CompiledExp::Sub(a, b) => a.variables().union(b.variables()),
            CompiledExp::Mul(a, b) => a.variables().union(b.variables()),
            CompiledExp::Div(a, b) => a.variables().union(b.variables()),
            CompiledExp::Power(a, _) => a.variables(),
            CompiledExp::Neg(a) => a.variables(),
            CompiledExp::Sin(a) => a.variables(),
            CompiledExp::Cos(a) => a.variables(),
            CompiledExp::Ln(a) => a.variables(),
            CompiledExp::Exp(a) => a.variables(),
        }
    }

    /// The name of the first variable from the left that has no value.
    pub open spec fn first_missing(self, vars: Map<usize, Binary64>) -> Option<Seq<char>>
        decreases self,
    {
        match self {
            CompiledExp::Val(_) => None,
            CompiledExp::Var(name, id) => if vars.dom().contains(id.index) {
                None
            } else {
                Some(name@)
            },
            CompiledExp::Add(a, b) => first_of(a.first_missing(vars), b.first_missing(vars)),
            CompiledExp::Sub(a, b) => first_of(a.first_missing(vars), b.first_missing(vars)),
            CompiledExp::Mul(a, b) => first_of(a.first_missing(vars), b.first_missing(vars)),
            CompiledExp::Div(a, b) => first_of(a.first_missing(vars), b.first_missing(vars)),
            CompiledExp::Power(a, _) => a.first_missing(vars),
            CompiledExp::Neg(a) => a.first_missing(vars),
            CompiledExp::Sin(a) => a.first_missing(vars),
            CompiledExp::Cos(a) => a.first_missing(vars),
            CompiledExp::Ln(a) => a.first_missing(vars),
            CompiledExp::Exp(a) => a.first_missing(vars),
        }
    }

    /// The values that the expression may have: operations are rounded one by
    /// one, elementary functions return what the host returns.
    pub open spec fn values<H: Elementary>(self, host: H, vars: Map<usize, Binary64>) -> Set<
        Binary64,
    >
        decreases self,
    {
        match self {
            CompiledExp::Val(v) => Set::new(|r: Binary64| r == v),
            CompiledExp::Var(_, id) => Set::new(
                |r: Binary64| vars.dom().contains(id.index) && r == vars[id.index],
            ),
            CompiledExp::Add(a, b) => combined(
                a.values(host, vars),
                b.values(host, vars),
                |x: Binary64, y: Binary64, r: Binary64| r == x + y,
            ),
            CompiledExp::Sub(a, b) => combined(
                a.values(host, vars),
                b.values(host, vars),
                |x: Binary64, y: Binary64, r: Binary64| r == x - y,
            ),
            CompiledExp::Mul(a, b) => combined(
                a.values(host, vars),
                b.values(host, vars),
                |x: Binary64, y: Binary64, r: Binary64| r == x * y,
            ),
            CompiledExp::Div(a, b) => combined(
                a.values(host, vars),
                b.values(host, vars),
                |x: Binary64, y: Binary64, r: Binary64| r == x / y,
            ),
            CompiledExp::Power(a, p) => mapped(
                a.values(host, vars),
                |x: Binary64, r: Binary64| elementary::is_power(host, x, p, r),
            ),
            CompiledExp::Neg(a) => mapped(
                a.values(host, vars),
                |x: Binary64, r: Binary64| r == x.negated(),
            ),
            CompiledExp::Sin(a) => mapped(
                a.values(host, vars),
                |x: Binary64, r: Binary64| elementary::is_sin(host, x, r),
            ),
            CompiledExp::Cos(a) => mapped(
                a.values(host, vars),
                |x: Binary64, r: Binary64| elementary::is_cos(host, x, r),
            ),
            CompiledExp::Ln(a) => mapped(
                a.values(host, vars),
                |x: Binary64, r: Binary64| elementary::is_ln(host, x, r),
            ),
            CompiledExp::Exp(a) => mapped(
                a.values(host, vars),
                |x: Binary64, r: Binary64| elementary::is_exp(host, x, r),
            ),
        }
    }

    /// `r` is a value that the expression may have.
    pub open spec fn evaluates<H: Elementary>(
        self,
        host: H,
        vars: Map<usize, Binary64>,
        r: Binary64,
    ) -> bool {
        self.values(host, vars).contains(r)
    }

    /// The derivative by one variable, before simplification.
    pub open spec fn derivative(self, id: VarId) -> CompiledExp
        decreases self,
    {
        match self {
            CompiledExp::Val(_) => CompiledExp::Val(Binary64::zero_value()),
            CompiledExp::Var(_, own) => CompiledExp::Val(
                if own == id {
                    Binary64::one()
                } else {
                    Binary64::zero_value()
                },
            ),
            CompiledExp::Add(a, b) => CompiledExp::Add(
                Box::new(a.derivative(id)),
                Box::new(b.derivative(id)),
            ),
            CompiledExp::Sub(a, b) => CompiledExp::Sub(
                Box::new(a.derivative(id)),
                Box::new(b.derivative(id)),
            ),
            CompiledExp::Mul(a, b) => CompiledExp::Add(
                Box::new(CompiledExp::Mul(Box::new(a.derivative(id)), b)),
                Box::new(CompiledExp::Mul(a, Box::new(b.derivative(id)))),
            ),
            CompiledExp::Div(a, b) => CompiledExp::Div(
                Box::new(
                    CompiledExp::Sub(
                        Box::new(CompiledExp::Mul(Box::new(a.derivative(id)), b)),
                        Box::new(CompiledExp::Mul(a, Box::new(b.derivative(id)))),
                    ),
                ),
                Box::new(CompiledExp::Power(b, Binary64::two())),
            ),
            CompiledExp::Power(a, p) => CompiledExp::Mul(
                Box::new(
                    CompiledExp::Mul(
                        Box::new(CompiledExp::Val(p)),
                        Box::new(CompiledExp::Power(a, p - Binary64::one())),
                    ),
                ),
                Box::new(a.derivative(id)),
            ),
            CompiledExp::Neg(a) => CompiledExp::Neg(Box::new(a.derivative(id))),
            CompiledExp::Sin(a) => CompiledExp::Mul(
                Box::new(CompiledExp::Cos(a)),
                Box::new(a.derivative(id)),
            ),
            CompiledExp::Cos(a) => CompiledExp::Neg(
                Box::new(
                    CompiledExp::Mul(Box::new(CompiledExp::Sin(a)), Box::new(a.derivative(id))),
                ),
            ),
            CompiledExp::Ln(a) => CompiledExp::Div(Box::new(a.derivative(id)), a),
            CompiledExp::Exp(a) => CompiledExp::Mul(
                Box::new(CompiledExp::Exp(a)),
                Box::new(a.derivative(id)),
            ),
        }
    }

    /// The expression is the constant zero, of either sign.
    pub open spec fn is_zero(self) -> bool {
        self matches CompiledExp::Val(v) && v.same(Binary64::zero_value())
    }

    /// The expression is the constant one.
    pub open spec fn is_one(self) -> bool {
        self matches CompiledExp::Val(v) && v.same(Binary64::one())
    }

    /// A sum of simplified terms.
    pub open spec fn simple_sum(a: CompiledExp, b: CompiledExp) -> CompiledExp {
        if a is Val && b is Val {
            CompiledExp::Val(a->Val_0 + b->Val_0)
        } else if a.is_zero() {
            b
        } else if b.is_zero() {
            a
        } else {
            CompiledExp::Add(Box::new(a), Box::new(b))
        }
    }

    /// A difference of simplified terms.
    pub open spec fn simple_difference(a: CompiledExp, b: CompiledExp) -> CompiledExp {
        if a is Val && b is Val {
            CompiledExp::Val(a->Val_0 - b->Val_0)
        } else if b.is_zero() {
            a
        } else {
            CompiledExp::Sub(Box::new(a), Box::new(b))
        }
    }

    /// A product of simplified factors.
    pub open spec fn simple_product(a: CompiledExp, b: CompiledExp) -> CompiledExp {
        if a is Val && b is Val {
            CompiledExp::Val(a->Val_0 * b->Val_0)
        } else if a.is_zero() || b.is_zero() {
            CompiledExp::Val(Binary64::zero_value())
        } else if a.is_one() {
            b
        } else if b.is_one() {
            a
        } else {
            CompiledExp::Mul(Box::new(a), Box::new(b))
        }
    }

    /// A quotient of simplified terms; a constant divided by zero is kept.
    pub open spec fn simple_quotient(a: CompiledExp, b: CompiledExp) -> CompiledExp {
        if a is Val && b is Val && !b.is_zero() {
            CompiledExp::Val(a->Val_0 / b->Val_0)
        } else if a.is_zero() {
            CompiledExp::Val(Binary64::zero_value())
        } else if b.is_one() {
            a
        } else {
            CompiledExp::Div(Box::new(a), Box::new(b))
        }
    }

    /// `s` is a simplified power of a simplified base.
    pub open spec fn simple_power<H: Elementary>(
        host: H,
        a: CompiledExp,
        p: Binary64,
        s: CompiledExp,
    ) -> bool {
        if a is Val {
            s matches CompiledExp::Val(v) && elementary::is_power(host, a->Val_0, p, v)
        } else if p.same(Binary64::zero_value()) {
            s == CompiledExp::Val(Binary64::one())
        } else if p.same(Binary64::one()) {
            s == a
        } else {
            s == CompiledExp::Power(Box::new(a), p)
        }
    }

    pub open spec fn simple_negation(a: CompiledExp) -> CompiledExp {
        if a is Val {
            CompiledExp::Val(a->Val_0.negated())
        } else {
            CompiledExp::Neg(Box::new(a))
        }
    }

    /// What the expression may become when constants are folded and neutral
    /// terms dropped. The arguments of elementary functions are left as they
    /// are.
    pub open spec fn simplifications<H: Elementary>(self, host: H) -> Set<CompiledExp>
        decreases self,
    {
        match self {
            CompiledExp::Add(a, b) => combined(
                a.simplifications(host),
                b.simplifications(host),
                |x: CompiledExp, y: CompiledExp, s: CompiledExp| s == Self::simple_sum(x, y),
            ),
            CompiledExp::Sub(a, b) => combined(
                a.simplifications(host),
                b.simplifications(host),
                |x: CompiledExp, y: CompiledExp, s: CompiledExp|
                    s == Self::simple_difference(x, y),
            ),
            CompiledExp::Mul(a, b) => combined(
                a.simplifications(host),
                b.simplifications(host),
                |x: CompiledExp, y: CompiledExp, s: CompiledExp| s == Self::simple_product(x, y),
            ),
            CompiledExp::Div(a, b) => combined(
                a.simplifications(host),
                b.simplifications(host),
                |x: CompiledExp, y: CompiledExp, s: CompiledExp| s == Self::simple_quotient(x, y),
            ),
            CompiledExp::Power(a, p) => mapped(
                a.simplifications(host),
                |x: CompiledExp, s: CompiledExp| Self::simple_power(host, x, p, s),
            ),
            CompiledExp::Neg(a) => mapped(
                a.simplifications(host),
                |x: CompiledExp, s: CompiledExp| s == Self::simple_negation(x),
            ),
            _ => Set::new(|s: CompiledExp| s == self),
        }
    }

    /// `s` is what the expression may become when it is simplified.
    pub open spec fn simplifies<H: Elementary>(self, host: H, s: CompiledExp) -> bool {
        self.simplifications(host).contains(s)
    }
}

/// What a relation gives for the members of a set.
pub open spec fn mapped<A>(a: Set<A>, f: spec_fn(A, A) -> bool) -> Set<A> {
    Set::new(|r: A| exists|x: A| #[trigger] a.contains(x) && f(x, r))
}

/// What a relation gives for pairs of members of two sets.
pub open spec fn combined<A>(a: Set<A>, b: Set<A>, f: spec_fn(A, A, A) -> bool) -> Set<A> {
    Set::new(
        |r: A| exists|x: A, y: A| #[trigger] a.contains(x) && #[trigger] b.contains(y) && f(x, y, r),
    )
}

/// The first of two findings.
pub open spec fn first_of<A>(a: Option<A>, b: Option<A>) -> Option<A> {
    if a is Some {
        a
    } else {
        b
    }
}

impl CompiledExp {
    /// The value of the expression.
    pub fn evaluate_checked<H: Elementary>(&self, host: &H, vars: &Assignment) -> (r: Result<
        Binary64,
        EvaluationError,
    >)
        ensures
            match r {
                Ok(value) => self.first_missing(vars@) is None && self.evaluates(
                    *host,
                    vars@,
                    value,
                ),
                Err(error) => self.first_missing(vars@) == Some(error.variable_name@),
            },
        decreases self,
    {
        match self {
            CompiledExp::Val(v) => Ok(*v),
            CompiledExp::Var(name, id) => {
                match vars.get(*id) {
                    Some(value) => Ok(value),
                    None => Err(EvaluationError::missing_variable(name.as_str())),
                }
            },
            CompiledExp::Add(a, b) => {
                match a.evaluate_checked(host, vars) {
                    Err(error) => Err(error),
                    Ok(x) => match b.evaluate_checked(host, vars) {
                        Err(error) => Err(error),
                        Ok(y) => Ok(x + y),
                    },
                }
            },
            CompiledExp::Sub(a, b) => {
                match a.evaluate_checked(host, vars) {
                    Err(error) => Err(error),
                    Ok(x) => match b.evaluate_checked(host, vars) {
                        Err(error) => Err(error),
                        Ok(y) => Ok(x - y),
                    },
                }
            },
            CompiledExp::Mul(a, b) => {
                match a.evaluate_checked(host, vars) {
                    Err(error) => Err(error),
                    Ok(x) => match b.evaluate_checked(host, vars) {
                        Err(error) => Err(error),
                        Ok(y) => Ok(x * y),
                    },
                }
            },
            CompiledExp::Div(a, b) => {
                match a.evaluate_checked(host, vars) {
                    Err(error) => Err(error),
                    Ok(x) => match b.evaluate_checked(host, vars) {
                        Err(error) => Err(error),
                        Ok(y) => Ok(x / y),
                    },
                }
            },
            CompiledExp::Power(a, p) => {
                match a.evaluate_checked(host, vars) {
                    Err(error) => Err(error),
                    Ok(x) => Ok(host.power(x, *p)),
                }
            },
            CompiledExp::Neg(a) => {
                match a.evaluate_checked(host, vars) {
                    Err(error) => Err(error),
                    Ok(x) => Ok(x.neg()),
                }
            },
            CompiledExp::Sin(a) => {
                match a.evaluate_checked(host, vars) {
                    Err(error) => Err(error),
                    Ok(x) => Ok(host.sin(x)),
                }
            },
            CompiledExp::Cos(a) => {
                match a.evaluate_checked(host, vars) {
                    Err(error) => Err(error),
                    Ok(x) => Ok(host.cos(x)),
                }
            },
            CompiledExp::Ln(a) => {
                match a.evaluate_checked(host, vars) {
                    Err(error) => Err(error),
                    Ok(x) => Ok(host.ln(x)),
                }
            },
            CompiledExp::Exp(a) => {
                match a.evaluate_checked(host, vars) {
                    Err(error) => Err(error),
                    Ok(x) => Ok(host.exp(x)),
                }
            },
        }
    }

    /// The derivative by one variable, before simplification.
    pub fn differentiate(&self, var_id: VarId) -> (r: CompiledExp)
        ensures
            r == self.derivative(var_id),
        decreases self,
    {
        match self {
            CompiledExp::Val(_) => CompiledExp::Val(Binary64::zero_value()),
            CompiledExp::Var(_, id) => {
                if *id == var_id {
                    CompiledExp::Val(Binary64::one())
                } else {
                    CompiledExp::Val(Binary64::zero_value())
                }
            },
            CompiledExp::Add(a, b) => CompiledExp::Add(
                Box::new(a.differentiate(var_id)),
                Box::new(b.differentiate(var_id)),
            ),
            CompiledExp::Sub(a, b) => CompiledExp::Sub(
                Box::new(a.differentiate(var_id)),
                Box::new(b.differentiate(var_id)),
            ),
            CompiledExp::Mul(a, b) => {
                let da = a.differentiate(var_id);
                let db = b.differentiate(var_id);
                CompiledExp::Add(
                    Box::new(CompiledExp::Mul(Box::new(da), Box::new((&**b).clone()))),
                    Box::new(CompiledExp::Mul(Box::new((&**a).clone()), Box::new(db))),
                )
            },
            CompiledExp::Div(a, b) => {
                let da = a.differentiate(var_id);
                let db = b.differentiate(var_id);
                CompiledExp::Div(
                    Box::new(
                        CompiledExp::Sub(
                            Box::new(CompiledExp::Mul(Box::new(da), Box::new((&**b).clone()))),
                            Box::new(CompiledExp::Mul(Box::new((&**a).clone()), Box::new(db))),
                        ),
                    ),
                    Box::new(CompiledExp::Power(Box::new((&**b).clone()), Binary64::two())),
                )
            },
            CompiledExp::Power(a, p) => {
                let da = a.differentiate(var_id);
                let lowered: Binary64 = *p - Binary64::one();
                CompiledExp::Mul(
                    Box::new(
                        CompiledExp::Mul(
                            Box::new(CompiledExp::Val(*p)),
                            Box::new(CompiledExp::Power(Box::new((&**a).clone()), lowered)),
                        ),
                    ),
                    Box::new(da),
                )
            },
            CompiledExp::Neg(a) => CompiledExp::Neg(Box::new(a.differentiate(var_id))),
            CompiledExp::Sin(a) => {
                let da = a.differentiate(var_id);
                CompiledExp::Mul(
                    Box::new(CompiledExp::Cos(Box::new((&**a).clone()))),
                    Box::new(da),
                )
            },
            CompiledExp::Cos(a) => {
                let da = a.differentiate(var_id);
                CompiledExp::Neg(
                    Box::new(
                        CompiledExp::Mul(
                            Box::new(CompiledExp::Sin(Box::new((&**a).clone()))),
                            Box::new(da),
                        ),
                    ),
                )
            },
            CompiledExp::Ln(a) => {
                let da = a.differentiate(var_id);
                CompiledExp::Div(Box::new(da), Box::new((&**a).clone()))
            },
            CompiledExp::Exp(a) => {
                let da = a.differentiate(var_id);
                CompiledExp::Mul(
                    Box::new(CompiledExp::Exp(Box::new((&**a).clone()))),
                    Box::new(da),
                )
            },
        }
    }

    /// The constant that an expression is, where it is one.
    fn constant(&self) -> (r: Option<Binary64>)
        ensures
            match r {
                Some(v) => *self == CompiledExp::Val(v),
                None => !(self is Val),
            },
    {
        match self {
            CompiledExp::Val(v) => Some(*v),
            _ => None,
        }
    }

    /// The expression is a constant equal to a number.
    fn equals(&self, value: Binary64) -> (r: bool)
        ensures
            r == (self matches CompiledExp::Val(v) && v.same(value)),
    {
        match self {
            CompiledExp::Val(v) => *v == value,
            _ => false,
        }
    }

    fn join_sum(a: CompiledExp, b: CompiledExp) -> (r: CompiledExp)
        ensures
            r == Self::simple_sum(a, b),
    {
        match (a.constant(), b.constant()) {
            (Some(x), Some(y)) => {
                return CompiledExp::Val(x + y);
            },
            _ => {},
        }
        if a.equals(Binary64::zero_value()) {
            b
        } else if b.equals(Binary64::zero_value()) {
            a
        } else {
            CompiledExp::Add(Box::new(a), Box::new(b))
        }
    }

    fn join_difference(a: CompiledExp, b: CompiledExp) -> (r: CompiledExp)
        ensures
            r == Self::simple_difference(a, b),
    {
        match (a.constant(), b.constant()) {
            (Some(x), Some(y)) => {
                return CompiledExp::Val(x - y);
            },
            _ => {},
        }
        if b.equals(Binary64::zero_value()) {
            a
        } else {
            CompiledExp::Sub(Box::new(a), Box::new(b))
        }
    }

    fn join_product(a: CompiledExp, b: CompiledExp) -> (r: CompiledExp)
        ensures
            r == Self::simple_product(a, b),
    {
        match (a.constant(), b.constant()) {
            (Some(x), Some(y)) => {
                return CompiledExp::Val(x * y);
            },
            _ => {},
        }
        if a.equals(Binary64::zero_value()) || b.equals(Binary64::zero_value()) {
            CompiledExp::Val(Binary64::zero_value())
        } else if a.equals(Binary64::one()) {
            b
        } else if b.equals(Binary64::one()) {
            a
        } else {
            CompiledExp::Mul(Box::new(a), Box::new(b))
        }
    }

    fn join_quotient(a: CompiledExp, b: CompiledExp) -> (r: CompiledExp)
        ensures
            r == Self::simple_quotient(a, b),
    {
        match (a.constant(), b.constant()) {
            (Some(x), Some(y)) => {
                if !(y == Binary64::zero_value()) {
                    return CompiledExp::Val(x / y);
                }
            },
            _ => {},
        }
        if a.equals(Binary64::zero_value()) {
            CompiledExp::Val(Binary64::zero_value())
        } else if b.equals(Binary64::one()) {
            a
        } else {
            CompiledExp::Div(Box::new(a), Box::new(b))
        }
    }

    /// The expression with constants folded and neutral terms dropped.
    pub fn simplify<H: Elementary>(&self, host: &H) -> (r: CompiledExp)
        ensures
            self.simplifies(*host, r),
        decreases self,
    {
        match self {
            CompiledExp::Add(a, b) => {
                let x = a.simplify(host);
                let y = b.simplify(host);
                Self::join_sum(x, y)
            },
            CompiledExp::Sub(a, b) => {
                let x = a.simplify(host);
                let y = b.simplify(host);
                Self::join_difference(x, y)
            },
            CompiledExp::Mul(a, b) => {
                let x = a.simplify(host);
                let y = b.simplify(host);
                Self::join_product(x, y)
            },
            CompiledExp::Div(a, b) => {
                let x = a.simplify(host);
                let y = b.simplify(host);
                Self::join_quotient(x, y)
            },
            CompiledExp::Power(a, p) => {
                let x = a.simplify(host);
                match x.constant() {
                    Some(v) => CompiledExp::Val(host.power(v, *p)),
                    None => {
                        if *p == Binary64::zero_value() {
                            CompiledExp::Val(Binary64::one())
                        } else if *p == Binary64::one() {
                            x
                        } else {
                            CompiledExp::Power(Box::new(x), *p)
                        }
                    },
                }
            },
            CompiledExp::Neg(a) => {
                let x = a.simplify(host);
                match x.constant() {
                    Some(v) => CompiledExp::Val(v.neg()),
                    None => CompiledExp::Neg(Box::new(x)),
                }
            },
            _ => self.clone(),
        }
    }
}

proof fn lemma_extended_concat(names: Seq<Seq<char>>, a: Seq<Seq<char>>, b: Seq<Seq<char>>)
    ensures
        extended(extended(names, a), b) == extended(names, a + b),
    decreases b.len(),
{
    if b.len() == 0 {
        assert(a + b =~= a);
    } else {
        assert((a + b).drop_last() =~= a + b.drop_last());
        lemma_extended_concat(names, a, b.drop_last());
    }
}

/// Adding names keeps the names that were there, and no name comes twice.
proof fn lemma_extended(names: Seq<Seq<char>>, occurrences: Seq<Seq<char>>)
    requires
        names.no_duplicates(),
    ensures
        names.is_prefix_of(extended(names, occurrences)),
        extended(names, occurrences).no_duplicates(),
        forall|i: int|
            0 <= i < occurrences.len() ==> extended(names, occurrences).contains(
                #[trigger] occurrences[i],
            ),
    decreases occurrences.len(),
{
    if occurrences.len() > 0 {
        let head = occurrences.drop_last();
        let before = extended(names, head);
        let after = extended(names, occurrences);
        lemma_extended(names, head);
        assert forall|i: int| 0 <= i < occurrences.len() implies after.contains(
            #[trigger] occurrences[i],
        ) by {
            if i < head.len() {
                assert(head[i] == occurrences[i]);
                let k = choose|k: int| 0 <= k < before.len() && before[k] == head[i];
                assert(after[k] == head[i]);
            } else if !before.contains(occurrences[i]) {
                assert(after[before.len() as int] == occurrences[i]);
            }
        }
        assert(names.is_prefix_of(after));
    }
}

/// Numbers stay where names are added at the end.
proof fn lemma_indexed_stable(e: Exp, names: Seq<Seq<char>>, longer: Seq<Seq<char>>)
    requires
        names.is_prefix_of(longer),
        longer.no_duplicates(),
        forall|i: int|
            0 <= i < e.occurrences().len() ==> names.contains(#[trigger] e.occurrences()[i]),
    ensures
        indexed(e, names) == indexed(e, longer),
    decreases e,
{
    match e {
        Exp::Val(_) => {},
        Exp::Var(name) => {
            assert(e.occurrences()[0] == name@);
            let k = names.index_of(name@);
            assert(names[k] == name@);
            assert(longer[k] == name@);
            let m = longer.index_of(name@);
            assert(longer[m] == name@);
        },
        Exp::Add(a, b) | Exp::Sub(a, b) | Exp::Mul(a, b) | Exp::Div(a, b) => {
            assert forall|i: int| 0 <= i < a.occurrences().len() implies names.contains(
                #[trigger] a.occurrences()[i],
            ) by {
                assert(e.occurrences()[i] == a.occurrences()[i]);
            }
            assert forall|i: int| 0 <= i < b.occurrences().len() implies names.contains(
                #[trigger] b.occurrences()[i],
            ) by {
                assert(e.occurrences()[a.occurrences().len() + i] == b.occurrences()[i]);
            }
            lemma_indexed_stable(*a, names, longer);
            lemma_indexed_stable(*b, names, longer);
        },
        Exp::Power(a, _) | Exp::Neg(a) | Exp::Sin(a) | Exp::Cos(a) | Exp::Ln(a) | Exp::Exp(a) => {
            assert(e.occurrences() == a.occurrences());
            lemma_indexed_stable(*a, names, longer);
        },
    }
}

proof fn lemma_compiled_pair(
    a: Exp,
    b: Exp,
    before: Seq<Seq<char>>,
    between: Seq<Seq<char>>,
    after: Seq<Seq<char>>,
)
    requires
        before.no_duplicates(),
        between == extended(before, a.occurrences()),
        after == extended(between, b.occurrences()),
        !has_empty_name(a.occurrences()),
        !has_empty_name(b.occurrences()),
    ensures
        after == extended(before, a.occurrences() + b.occurrences()),
        indexed(a, between) == indexed(a, after),
        !has_empty_name(a.occurrences() + b.occurrences()),
{
    lemma_extended(before, a.occurrences());
    lemma_extended(between, b.occurrences());
    lemma_extended_concat(before, a.occurrences(), b.occurrences());
    lemma_indexed_stable(a, between, after);
    let all = a.occurrences() + b.occurrences();
    assert forall|i: int| 0 <= i < all.len() implies (#[trigger] all[i]).len() != 0 by {
        if i < a.occurrences().len() {
            assert(all[i] == a.occurrences()[i]);
        } else {
            assert(all[i] == b.occurrences()[i - a.occurrences().len()]);
        }
    }
}

/// Without an empty name all names come before one.
proof fn lemma_before_empty(occurrences: Seq<Seq<char>>)
    ensures
        before_empty(occurrences).len() <= occurrences.len(),
        before_empty(occurrences).len() == occurrences.len() <==> !has_empty_name(occurrences),
        !has_empty_name(occurrences) ==> before_empty(occurrences) == occurrences,
    decreases occurrences.len(),
{
    if occurrences.len() > 0 {
        let head = occurrences.drop_last();
        lemma_before_empty(head);
        if has_empty_name(head) {
            let i = choose|i: int| 0 <= i < head.len() && (#[trigger] head[i]).len() == 0;
            assert(occurrences[i].len() == 0);
        } else if occurrences.last().len() == 0 {
            assert(occurrences[occurrences.len() - 1].len() == 0);
        } else {
            assert forall|i: int| 0 <= i < occurrences.len() implies (
            #[trigger] occurrences[i]).len() != 0 by {
                if i < head.len() {
                    assert(head[i] == occurrences[i]);
                }
            }
        }
    }
}

/// An empty name in the first of two lists ends both.
proof fn lemma_before_empty_either(a: Seq<Seq<char>>, b: Seq<Seq<char>>)
    ensures
        before_empty(a + b) == if has_empty_name(a) {
            before_empty(a)
        } else {
            a + before_empty(b)
        },
    decreases b.len(),
{
    lemma_before_empty(a);
    if b.len() == 0 {
        assert(a + b =~= a);
    } else {
        let head = b.drop_last();
        assert((a + b).drop_last() =~= a + head);
        lemma_before_empty_either(a, head);
        lemma_before_empty(head);
        lemma_before_empty(a + head);
        if !has_empty_name(a) {
            if before_empty(head) == head {
                assert(a + b =~= (a + head).push(b.last()));
            } else {
                assert((a + before_empty(head)).len() < (a + head).len());
            }
        }
    }
}

proof fn lemma_empty_either(a: Seq<Seq<char>>, b: Seq<Seq<char>>)
    ensures
        has_empty_name(a) || has_empty_name(b) ==> has_empty_name(a + b),
{
    if has_empty_name(a) {
        let i = choose|i: int| 0 <= i < a.len() && (#[trigger] a[i]).len() == 0;
        assert((a + b)[i] == a[i]);
    }
    if has_empty_name(b) {
        let i = choose|i: int| 0 <= i < b.len() && (#[trigger] b[i]).len() == 0;
        assert((a + b)[a.len() + i] == b[i]);
    }
}

/// Equations over the variables of one table.
#[derive(Debug)]
pub struct CompiledSystem {
    equations: Vec<CompiledExp>,
    var_table: VarTable,
}

impl Clone for CompiledSystem {
    fn clone(&self) -> (r: CompiledSystem)
        ensures
            r.equations() == self.equations(),
            r.names() == self.names(),
            self.wf() ==> r.wf(),
    {
        let mut equations: Vec<CompiledExp> = Vec::new();
        let mut i: usize = 0;
        while i < self.equations.len()
            invariant
                i <= self.equations.len(),
                equations@ =~= self.equations@.take(i as int),
            decreases self.equations.len() - i,
        {
            equations.push(self.equations[i].clone());
            i = i + 1;
        }
        assert(equations@ =~= self.equations@);
        CompiledSystem { equations, var_table: self.var_table.clone() }
    }
}

impl CompiledSystem {
    /// The compiled equations.
    pub closed spec fn equations(self) -> Seq<CompiledExp> {
        self.equations@
    }

    /// The names of the variables, by number.
    pub closed spec fn names(self) -> Seq<Seq<char>> {
        self.var_table@
    }

    /// No name is empty or occurs twice, and each variable of an equation has
    /// its name in the table.
    pub closed spec fn wf(self) -> bool {
        &&& self.var_table.wf()
        &&& forall|i: int|
            0 <= i < self.equations@.len() ==> well_numbered(
                #[trigger] self.equations@[i],
                self.var_table@,
            )
    }

    /// There are no more names than a machine word counts.
    pub(crate) proof fn lemma_names(&self)
        ensures
            self.names().len() <= usize::MAX,
    {
        self.var_table.lemma_len();
    }
}

/// Each variable of the expression has its number's name in a list of names.
pub open spec fn well_numbered(e: CompiledExp, names: Seq<Seq<char>>) -> bool
    decreases e,
{
    match e {
        CompiledExp::Val(_) => true,
        CompiledExp::Var(name, id) => id.index < names.len() && names[id.index as int] == name@,
        CompiledExp::Add(a, b) => well_numbered(*a, names) && well_numbered(*b, names),
        CompiledExp::Sub(a, b) => well_numbered(*a, names) && well_numbered(*b, names),
        CompiledExp::Mul(a, b) => well_numbered(*a, names) && well_numbered(*b, names),
        CompiledExp::Div(a, b) => well_numbered(*a, names) && well_numbered(*b, names),
        CompiledExp::Power(a, _) => well_numbered(*a, names),
        CompiledExp::Neg(a) => well_numbered(*a, names),
        CompiledExp::Sin(a) => well_numbered(*a, names),
        CompiledExp::Cos(a) => well_numbered(*a, names),
        CompiledExp::Ln(a) => well_numbered(*a, names),
        CompiledExp::Exp(a) => well_numbered(*a, names),
    }
}

/// Numbering by a list that holds every name is right.
proof fn lemma_well_numbered(e: Exp, names: Seq<Seq<char>>)
    requires
        names.len() <= usize::MAX,
        forall|i: int|
            0 <= i < e.occurrences().len() ==> names.contains(#[trigger] e.occurrences()[i]),
    ensures
        well_numbered(indexed(e, names), names),
    decreases e,
{
    match e {
        Exp::Val(_) => {},
        Exp::Var(name) => {
            assert(e.occurrences()[0] == name@);
            let k = names.index_of(name@);
            assert(names[k] == name@);
        },
        Exp::Add(a, b) | Exp::Sub(a, b) | Exp::Mul(a, b) | Exp::Div(a, b) => {
            assert forall|i: int| 0 <= i < a.occurrences().len() implies names.contains(
                #[trigger] a.occurrences()[i],
            ) by {
                assert(e.occurrences()[i] == a.occurrences()[i]);
            }
            assert forall|i: int| 0 <= i < b.occurrences().len() implies names.contains(
                #[trigger] b.occurrences()[i],
            ) by {
                assert(e.occurrences()[a.occurrences().len() + i] == b.occurrences()[i]);
            }
            lemma_well_numbered(*a, names);
            lemma_well_numbered(*b, names);
        },
        Exp::Power(a, _) | Exp::Neg(a) | Exp::Sin(a) | Exp::Cos(a) | Exp::Ln(a) | Exp::Exp(a) => {
            assert(e.occurrences() == a.occurrences());
            lemma_well_numbered(*a, names);
        },
    }
}

/// Compiles systems of equations.
pub struct Compiler;

impl Compiler {
    /// Compile equations; variables are numbered in the order in which they
    /// first occur.
    #[verifier::rlimit(40)]
    pub fn compile(equations: &[Exp]) -> (r: Result<CompiledSystem, CompileError>)
        ensures
            match r {
                Err(error) => error == CompileError::EmptyVariableName && has_empty_name(
                    all_occurrences(equations@),
                ),
                Ok(system) => {
                    &&& !has_empty_name(all_occurrences(equations@))
                    &&& system.wf()
                    &&& system.names() == first_seen(all_occurrences(equations@))
                    &&& system.equations() == Seq::new(
                        equations@.len(),
                        |i: int| indexed(equations@[i], system.names()),
                    )
                },
            },
    {
        let mut var_table = VarTable::new();
        let mut compiled: Vec<CompiledExp> = Vec::with_capacity(equations.len());
        let mut i: usize = 0;
        assert(equations@.take(0) =~= Seq::empty());
        while i < equations.len()
            invariant
                i <= equations.len(),
                compiled@.len() == i,
                var_table.wf(),
                !has_empty_name(all_occurrences(equations@.take(i as int))),
                var_table@ == first_seen(all_occurrences(equations@.take(i as int))),
                forall|k: int|
                    0 <= k < i ==> #[trigger] compiled@[k] == indexed(equations@[k], var_table@),
                forall|k: int, n: int|
                    0 <= k < i && 0 <= n < equations@[k].occurrences().len()
                        ==> var_table@.contains(#[trigger] equations@[k].occurrences()[n]),
            decreases equations.len() - i,
        {
            let ghost head = all_occurrences(equations@.take(i as int));
            let ghost tail = equations@[i as int].occurrences();
            let ghost before = var_table@;
            proof {
                let next = equations@.take(i + 1);
                assert(next.drop_last() =~= equations@.take(i as int));
                assert(next.last() == equations@[i as int]);
                assert(all_occurrences(next) == head + tail);
                lemma_empty_either(head, tail);
            }
            match Self::compile_exp(&equations[i], &mut var_table) {
                Err(error) => {
                    proof {
                        lemma_empty_stays(equations@, i + 1);
                    }
                    return Err(error);
                },
                Ok(expression) => {
                    proof {
                        lemma_extended(before, tail);
                        lemma_extended_concat(Seq::empty(), head, tail);
                        assert forall|k: int, n: int|
                            0 <= k < i + 1 && 0 <= n
                                < equations@[k].occurrences().len() implies var_table@.contains(
                            #[trigger] equations@[k].occurrences()[n],
                        ) by {
                            if k < i {
                                let name = equations@[k].occurrences()[n];
                                let m = choose|m: int| 0 <= m < before.len() && before[m] == name;
                                assert(var_table@[m] == name);
                            }
                        }
                        assert forall|k: int| 0 <= k < i implies #[trigger] compiled@[k]
                            == indexed(equations@[k], var_table@) by {
                            lemma_indexed_stable(equations@[k], before, var_table@);
                        }
                        let all = head + tail;
                        assert forall|n: int| 0 <= n < all.len() implies (#[trigger] all[n]).len()
                            != 0 by {
                            if n < head.len() {
                                assert(all[n] == head[n]);
                            } else {
                                assert(all[n] == tail[n - head.len()]);
                            }
                        }
                    }
                    compiled.push(expression);
                },
            }
            i = i + 1;
        }
        proof {
            assert(equations@.take(i as int) =~= equations@);
            assert(var_table@.len() <= usize::MAX) by {
                var_table.lemma_len();
            }
            assert forall|k: int| 0 <= k < compiled@.len() implies well_numbered(
                #[trigger] compiled@[k],
                var_table@,
            ) by {
                lemma_well_numbered(equations@[k], var_table@);
            }
            assert(compiled@ =~= Seq::new(
                equations@.len(),
                |k: int| indexed(equations@[k], var_table@),
            ));
        }
        Ok(CompiledSystem { equations: compiled, var_table })
    }

    /// Compile one expression, adding its variables to a table.
    #[verifier::rlimit(40)]
    fn compile_exp(exp: &Exp, var_table: &mut VarTable) -> (r: Result<CompiledExp, CompileError>)
        requires
            old(var_table).wf(),
        ensures
            final(var_table).wf(),
            old(var_table)@.is_prefix_of(final(var_table)@),
            final(var_table)@ == extended(old(var_table)@, before_empty(exp.occurrences())),
            match r {
                Err(error) => error == CompileError::EmptyVariableName && has_empty_name(
                    exp.occurrences(),
                ),
                Ok(compiled) => {
                    &&& !has_empty_name(exp.occurrences())
                    &&& final(var_table)@ == extended(old(var_table)@, exp.occurrences())
                    &&& compiled == indexed(*exp, final(var_table)@)
                },
            },
        decreases exp,
    {
        let ghost before = var_table@;
        proof {
            lemma_extended(before, before_empty(exp.occurrences()));
            lemma_before_empty(exp.occurrences());
        }
        match exp {
            Exp::Val(v) => Ok(CompiledExp::Val(*v)),
            Exp::Var(name) => {
                proof {
                    reveal_with_fuel(before_empty, 2);
                    assert(exp.occurrences()[0] == name@);
                    assert(exp.occurrences().drop_last() =~= Seq::empty());
                    assert(extended(before, exp.occurrences().drop_last()) == before);
                }
                match var_table.register(name.as_str()) {
                    Err(error) => Err(error),
                    Ok(id) => Ok(CompiledExp::Var(name.clone(), id)),
                }
            },
            Exp::Add(a, b) => {
                match Self::compile_exp(&**a, var_table) {
                    Err(error) => {
                        proof {
                            lemma_empty_either(a.occurrences(), b.occurrences());
                            lemma_before_empty_either(a.occurrences(), b.occurrences());
                        }
                        Err(error)
                    },
                    Ok(x) => {
                        let ghost between = var_table@;
                        match Self::compile_exp(&**b, var_table) {
                            Err(error) => {
                                proof {
                                    lemma_empty_either(a.occurrences(), b.occurrences());
                                    lemma_before_empty_either(a.occurrences(), b.occurrences());
                                    lemma_extended_concat(
                                        before,
                                        a.occurrences(),
                                        before_empty(b.occurrences()),
                                    );
                                }
                                Err(error)
                            },
                            Ok(y) => {
                                proof {
                                    lemma_compiled_pair(**a, **b, before, between, var_table@);
                                }
                                Ok(CompiledExp::Add(Box::new(x), Box::new(y)))
                            },
                        }
                    },
                }
            },
            Exp::Sub(a, b) => {
                match Self::compile_exp(&**a, var_table) {
                    Err(error) => {
                        proof {
                            lemma_empty_either(a.occurrences(), b.occurrences());
                            lemma_before_empty_either(a.occurrences(), b.occurrences());
                        }
                        Err(error)
                    },
                    Ok(x) => {
                        let ghost between = var_table@;
                        match Self::compile_exp(&**b, var_table) {
                            Err(error) => {
                                proof {
                                    lemma_empty_either(a.occurrences(), b.occurrences());
                                    lemma_before_empty_either(a.occurrences(), b.occurrences());
                                    lemma_extended_concat(
                                        before,
                                        a.occurrences(),
                                        before_empty(b.occurrences()),
                                    );
                                }
                                Err(error)
                            },
                            Ok(y) => {
                                proof {
                                    lemma_compiled_pair(**a, **b, before, between, var_table@);
                                }
                                Ok(CompiledExp::Sub(Box::new(x), Box::new(y)))
                            },
                        }
                    },
                }
            },
            Exp::Mul(a, b) => {
                match Self::compile_exp(&**a, var_table) {
                    Err(error) => {
                        proof {
                            lemma_empty_either(a.occurrences(), b.occurrences());
                            lemma_before_empty_either(a.occurrences(), b.occurrences());
                        }
                        Err(error)
                    },
                    Ok(x) => {
                        let ghost between = var_table@;
                        match Self::compile_exp(&**b, var_table) {
                            Err(error) => {
                                proof {
                                    lemma_empty_either(a.occurrences(), b.occurrences());
                                    lemma_before_empty_either(a.occurrences(), b.occurrences());
                                    lemma_extended_concat(
                                        before,
                                        a.occurrences(),
                                        before_empty(b.occurrences()),
                                    );
                                }
                                Err(error)
                            },
                            Ok(y) => {
                                proof {
                                    lemma_compiled_pair(**a, **b, before, between, var_table@);
                                }
                                Ok(CompiledExp::Mul(Box::new(x), Box::new(y)))
                            },
                        }
                    },
                }
            },
            Exp::Div(a, b) => {
                match Self::compile_exp(&**a, var_table) {
                    Err(error) => {
                        proof {
                            lemma_empty_either(a.occurrences(), b.occurrences());
                            lemma_before_empty_either(a.occurrences(), b.occurrences());
                        }
                        Err(error)
                    },
                    Ok(x) => {
                        let ghost between = var_table@;
                        match Self::compile_exp(&**b, var_table) {
                            Err(error) => {
                                proof {
                                    lemma_empty_either(a.occurrences(), b.occurrences());
                                    lemma_before_empty_either(a.occurrences(), b.occurrences());
                                    lemma_extended_concat(
                                        before,
                                        a.occurrences(),
                                        before_empty(b.occurrences()),
                                    );
                                }
                                Err(error)
                            },
                            Ok(y) => {
                                proof {
                                    lemma_compiled_pair(**a, **b, before, between, var_table@);
                                }
                                Ok(CompiledExp::Div(Box::new(x), Box::new(y)))
                            },
                        }
                    },
                }
            },
            Exp::Power(a, p) => {
                match Self::compile_exp(&**a, var_table) {
                    Err(error) => Err(error),
                    Ok(x) => Ok(CompiledExp::Power(Box::new(x), *p)),
                }
            },
            Exp::Neg(a) => {
                match Self::compile_exp(&**a, var_table) {
                    Err(error) => Err(error),
                    Ok(x) => Ok(CompiledExp::Neg(Box::new(x))),
                }
            },
            Exp::Sin(a) => {
                match Self::compile_exp(&**a, var_table) {
                    Err(error) => Err(error),
                    Ok(x) => Ok(CompiledExp::Sin(Box::new(x))),
                }
            },
            Exp::Cos(a) => {
                match Self::compile_exp(&**a, var_table) {
                    Err(error) => Err(error),
                    Ok(x) => Ok(CompiledExp::Cos(Box::new(x))),
                }
            },
            Exp::Ln(a) => {
                match Self::compile_exp(&**a, var_table) {
                    Err(error) => Err(error),
                    Ok(x) => Ok(CompiledExp::Ln(Box::new(x))),
                }
            },
            Exp::Exp(a) => {
                match Self::compile_exp(&**a, var_table) {
                    Err(error) => Err(error),
                    Ok(x) => Ok(CompiledExp::Exp(Box::new(x))),
                }
            },
        }
    }
}

/// An empty name among some equations is one among all of them.
proof fn lemma_empty_stays(equations: Seq<Exp>, k: int)
    requires
        0 <= k <= equations.len(),
        has_empty_name(all_occurrences(equations.take(k))),
    ensures
        has_empty_name(all_occurrences(equations)),
    decreases equations.len() - k,
{
    if k < equations.len() {
        let next = equations.take(k + 1);
        assert(next.drop_last() =~= equations.take(k));
        lemma_empty_either(all_occurrences(equations.take(k)), next.last().occurrences());
        lemma_empty_stays(equations, k + 1);
    } else {
        assert(equations.take(k) =~= equations);
    }
}

impl CompiledSystem {
    /// Number of equations.
    pub fn equation_count(&self) -> (r: usize)
        ensures
            r == self.equations().len(),
    {
        self.equations.len()
    }

    /// Number of variables.
    pub fn variable_count(&self) -> (r: usize)
        ensures
            r == self.names().len(),
    {
        self.var_table.len()
    }

    /// Names of the variables, by number.
    pub fn variable_names(&self) -> (r: &[String])
        ensures
            texts(r@) == self.names(),
    {
        self.var_table.names()
    }

    /// A variable has this name.
    pub fn contains_variable(&self, name: &str) -> (r: bool)
        requires
            self.wf(),
        ensures
            r == self.names().contains(name@),
    {
        self.var_table.get_id(name).is_some()
    }

    /// The variable with a name, where there is one.
    pub fn variable_id(&self, name: &str) -> (r: Option<VarId>)
        requires
            self.wf(),
        ensures
            match r {
                None => !self.names().contains(name@),
                Some(id) => id.index < self.names().len() && self.names()[id.index as int]
                    == name@ && id == number_of(self.names(), name@),
            },
    {
        self.var_table.get_id(name)
    }

    /// All variables, in the order of their numbers.
    pub fn variable_ids(&self) -> (r: Vec<VarId>)
        ensures
            r@ == Seq::new(self.names().len(), |i: int| VarId { index: i as usize }),
            r@.no_duplicates(),
    {
        self.var_table.all_var_ids()
    }

    /// There is no equation.
    pub fn is_empty(&self) -> (r: bool)
        ensures
            r == (self.equations().len() == 0),
    {
        self.equations.len() == 0
    }

    /// The equations and the table of variables.
    pub fn into_parts(self) -> (r: (Vec<CompiledExp>, VarTable))
        requires
            self.wf(),
        ensures
            r.0@ == self.equations(),
            r.1@ == self.names(),
            r.1.wf(),
            forall|i: int| 0 <= i < r.0@.len() ==> well_numbered(#[trigger] r.0@[i], r.1@),
            r.1@.len() <= usize::MAX,
    {
        assert(self.var_table.names.len() == self.var_table@.len());
        (self.equations, self.var_table)
    }
}

/// An expression has a value exactly where each of its variables has one.
pub proof fn law_evaluation_total(e: CompiledExp, vars: Map<usize, Binary64>)
    ensures
        e.first_missing(vars) is None <==> e.variables().subset_of(vars.dom()),
    decreases e,
{
    match e {
        CompiledExp::Val(_) => {},
        CompiledExp::Var(_, id) => {
            assert(e.variables().contains(id.index));
        },
        CompiledExp::Add(a, b)
        | CompiledExp::Sub(a, b)
        | CompiledExp::Mul(a, b)
        | CompiledExp::Div(a, b) => {
            law_evaluation_total(*a, vars);
            law_evaluation_total(*b, vars);
            assert(e.variables() == a.variables().union(b.variables()));
            assert(a.variables().subset_of(e.variables()));
            assert(b.variables().subset_of(e.variables()));
        },
        CompiledExp::Power(a, _)
        | CompiledExp::Neg(a)
        | CompiledExp::Sin(a)
        | CompiledExp::Cos(a)
        | CompiledExp::Ln(a)
        | CompiledExp::Exp(a) => {
            law_evaluation_total(*a, vars);
            assert(e.variables() == a.variables());
        },
    }
}

/// A derivative holds no variable that the expression does not hold.
pub proof fn law_derivative_variables(e: CompiledExp, id: VarId)
    ensures
        e.derivative(id).variables().subset_of(e.variables()),
    decreases e,
{
    reveal_with_fuel(CompiledExp::variables, 5);
    match e {
        CompiledExp::Val(_) => {},
        CompiledExp::Var(_, _) => {},
        CompiledExp::Add(a, b)
        | CompiledExp::Sub(a, b)
        | CompiledExp::Mul(a, b)
        | CompiledExp::Div(a, b) => {
            law_derivative_variables(*a, id);
            law_derivative_variables(*b, id);
        },
        CompiledExp::Power(a, _)
        | CompiledExp::Neg(a)
        | CompiledExp::Sin(a)
        | CompiledExp::Cos(a)
        | CompiledExp::Ln(a)
        | CompiledExp::Exp(a) => {
            law_derivative_variables(*a, id);
        },
    }
}

/// A simplified expression holds no variable that the expression does not hold.
pub proof fn law_simplified_variables<H: Elementary>(e: CompiledExp, host: H, s: CompiledExp)
    requires
        e.simplifies(host, s),
    ensures
        s.variables().subset_of(e.variables()),
    decreases e,
{
    reveal_with_fuel(CompiledExp::variables, 2);
    match e {
        CompiledExp::Add(a, b)
        | CompiledExp::Sub(a, b)
        | CompiledExp::Mul(a, b)
        | CompiledExp::Div(a, b) => {
            let (x, y) = choose|x: CompiledExp, y: CompiledExp|
                #![trigger a.simplifications(host).contains(x), b.simplifications(host).contains(y)]
                a.simplifications(host).contains(x) && b.simplifications(host).contains(y) && (
                s == CompiledExp::simple_sum(x, y) || s == CompiledExp::simple_difference(x, y) || s
                    == CompiledExp::simple_product(x, y) || s == CompiledExp::simple_quotient(x, y));
            law_simplified_variables(*a, host, x);
            law_simplified_variables(*b, host, y);
        },
        CompiledExp::Power(a, p) => {
            let x = choose|x: CompiledExp|
                #![trigger a.simplifications(host).contains(x)]
                a.simplifications(host).contains(x) && CompiledExp::simple_power(host, x, p, s);
            law_simplified_variables(*a, host, x);
        },
        CompiledExp::Neg(a) => {
            let x = choose|x: CompiledExp|
                #![trigger a.simplifications(host).contains(x)]
                a.simplifications(host).contains(x) && s == CompiledExp::simple_negation(x);
            law_simplified_variables(*a, host, x);
        },
        _ => {},
    }
}

proof fn lemma_extended_only(names: Seq<Seq<char>>, occurrences: Seq<Seq<char>>, name: Seq<char>)
    requires
        extended(names, occurrences).contains(name),
    ensures
        names.contains(name) || occurrences.contains(name),
    decreases occurrences.len(),
{
    if occurrences.len() > 0 {
        let head = occurrences.drop_last();
        let before = extended(names, head);
        if name == occurrences.last() {
            assert(occurrences[occurrences.len() - 1] == name);
        } else {
            let k = choose|k: int|
                0 <= k < extended(names, occurrences).len() && extended(names, occurrences)[k]
                    == name;
            assert(before[k] == name);
            lemma_extended_only(names, head, name);
            if head.contains(name) {
                let j = choose|j: int| 0 <= j < head.len() && head[j] == name;
                assert(occurrences[j] == name);
            }
        }
    }
}

/// The names of a system are those that occur, each of them once.
pub proof fn law_names(occurrences: Seq<Seq<char>>)
    ensures
        first_seen(occurrences).no_duplicates(),
        forall|name: Seq<char>| #[trigger]
            first_seen(occurrences).contains(name) <==> occurrences.contains(name),
{
    lemma_extended(Seq::empty(), occurrences);
    assert forall|name: Seq<char>| #[trigger]
        first_seen(occurrences).contains(name) <==> occurrences.contains(name) by {
        if first_seen(occurrences).contains(name) {
            lemma_extended_only(Seq::empty(), occurrences, name);
        }
    }
}

/// More equations leave the numbers of the variables as they are.
pub proof fn law_names_stable(a: Seq<Seq<char>>, b: Seq<Seq<char>>)
    ensures
        first_seen(a).is_prefix_of(first_seen(a + b)),
{
    lemma_extended(Seq::empty(), a);
    lemma_extended(first_seen(a), b);
    lemma_extended_concat(Seq::empty(), a, b);
}

} // verus!
