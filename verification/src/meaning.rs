//! What expressions mean under named values, and that compiling keeps it.
use crate::binary64::Binary64;
use crate::compiler;
use crate::elementary;
use crate::elementary::Elementary;
use crate::exp::Exp;
use crate::newton;
use crate::newton::Setup;
use crate::report::Solution;
use crate::text::Notation;
use vstd::prelude::*;

verus! {

/// Values by name, for variables that are numbered by a list of names.
pub open spec fn by_name(
    names: Seq<Seq<char>>,
    vars: Map<usize, Binary64>,
) -> Map<Seq<char>, Binary64> {
    Map::new(
        |n: Seq<char>| names.contains(n),
        |n: Seq<char>| vars[names.index_of(n) as usize],
    )
}

impl Exp {
    /// The values that the expression may have where variables have the values
    /// of a map; none where a variable has no value.
    pub open spec fn meanings<H: Elementary>(
        self,
        host: H,
        values: Map<Seq<char>, Binary64>,
    ) -> Set<Binary64>
        decreases self,
    {
        match self {
            Exp::Val(v) => Set::new(|r: Binary64| r == v),
            Exp::Var(name) => Set::new(
                |r: Binary64| values.dom().contains(name@) && r == values[name@],
            ),
            Exp::Add(a, b) => compiler::combined(
                a.meanings(host, values),
                b.meanings(host, values),
                |x: Binary64, y: Binary64, r: Binary64| r == x + y,
            ),
            Exp::Sub(a, b) => compiler::combined(
                a.meanings(host, values),
                b.meanings(host, values),
                |x: Binary64, y: Binary64, r: Binary64| r == x - y,
            ),
            Exp::Mul(a, b) => compiler::combined(
                a.meanings(host, values),
                b.meanings(host, values),
                |x: Binary64, y: Binary64, r: Binary64| r == x * y,
            ),
            Exp::Div(a, b) => compiler::combined(
                a.meanings(host, values),
                b.meanings(host, values),
                |x: Binary64, y: Binary64, r: Binary64| r == x / y,
            ),
            Exp::Power(a, p) => compiler::mapped(
                a.meanings(host, values),
                |x: Binary64, r: Binary64| elementary::is_power(host, x, p, r),
            ),
            Exp::Neg(a) => compiler::mapped(
                a.meanings(host, values),
                |x: Binary64, r: Binary64| r == x.negated(),
            ),
            Exp::Sin(a) => compiler::mapped(
                a.meanings(host, values),
                |x: Binary64, r: Binary64| elementary::is_sin(host, x, r),
            ),
            Exp::Cos(a) => compiler::mapped(
                a.meanings(host, values),
                |x: Binary64, r: Binary64| elementary::is_cos(host, x, r),
            ),
            Exp::Ln(a) => compiler::mapped(
                a.meanings(host, values),
                |x: Binary64, r: Binary64| elementary::is_ln(host, x, r),
            ),
            Exp::Exp(a) => compiler::mapped(
                a.meanings(host, values),
                |x: Binary64, r: Binary64| elementary::is_exp(host, x, r),
            ),
        }
    }

    /// Every variable of the expression is in a list of names.
    pub open spec fn covered(self, names: Seq<Seq<char>>) -> bool {
        forall|i: int|
            0 <= i < self.occurrences().len() ==> names.contains(#[trigger] self.occurrences()[i])
    }
}

proof fn lemma_covered(e: Exp, a: Exp, b: Exp, names: Seq<Seq<char>>)
    requires
        e.covered(names),
        e.occurrences() == a.occurrences() + b.occurrences(),
    ensures
        a.covered(names),
        b.covered(names),
{
    let whole = e.occurrences();
    assert forall|i: int| 0 <= i < a.occurrences().len() implies names.contains(
        #[trigger] a.occurrences()[i],
    ) by {
        assert(whole[i] == a.occurrences()[i]);
    }
    assert forall|i: int| 0 <= i < b.occurrences().len() implies names.contains(
        #[trigger] b.occurrences()[i],
    ) by {
        assert(whole[a.occurrences().len() + i] == b.occurrences()[i]);
    }
}

/// Compiling keeps meaning: with every variable numbered and given a value, a
/// compiled expression has the values that its source has under the values by
/// name.
pub proof fn law_compiled_meaning<H: Elementary>(
    e: Exp,
    names: Seq<Seq<char>>,
    host: H,
    vars: Map<usize, Binary64>,
)
    requires
        names.len() <= usize::MAX,
        e.covered(names),
        forall|i: usize| i < names.len() ==> vars.dom().contains(i),
    ensures
        compiler::indexed(e, names).values(host, vars) == e.meanings(host, by_name(names, vars)),
    decreases e,
{
    let values = by_name(names, vars);
    match e {
        Exp::Val(_) => {},
        Exp::Var(name) => {
            assert(e.occurrences()[0] == name@);
            assert(names.contains(name@));
            let k = choose|k: int| 0 <= k < names.len() && names[k] == name@;
            assert(names[k] == name@);
            assert(0 <= names.index_of(name@) < names.len());
            assert(values.dom().contains(name@));
            assert(compiler::indexed(e, names).values(host, vars) =~= e.meanings(host, values));
        },
        Exp::Add(a, b) | Exp::Sub(a, b) | Exp::Mul(a, b) | Exp::Div(a, b) => {
            lemma_covered(e, *a, *b, names);
            law_compiled_meaning(*a, names, host, vars);
            law_compiled_meaning(*b, names, host, vars);
        },
        Exp::Power(a, _)
        | Exp::Neg(a)
        | Exp::Sin(a)
        | Exp::Cos(a)
        | Exp::Ln(a)
        | Exp::Exp(a) => {
            assert(a.occurrences() == e.occurrences());
            law_compiled_meaning(*a, names, host, vars);
        },
    }
}

proof fn lemma_occurrence(equations: Seq<Exp>, k: int, i: int)
    requires
        0 <= k < equations.len(),
        0 <= i < equations[k].occurrences().len(),
    ensures
        compiler::all_occurrences(equations).contains(equations[k].occurrences()[i]),
    decreases equations.len(),
{
    let head = compiler::all_occurrences(equations.drop_last());
    let tail = equations.last().occurrences();
    let wanted = equations[k].occurrences()[i];
    if k == equations.len() - 1 {
        assert((head + tail)[head.len() + i] == wanted);
    } else {
        lemma_occurrence(equations.drop_last(), k, i);
        let j = choose|j: int| 0 <= j < head.len() && head[j] == wanted;
        assert((head + tail)[j] == wanted);
    }
}

/// The names of a compiled system hold every variable of every equation.
pub proof fn law_names_cover(equations: Seq<Exp>)
    ensures
        forall|k: int|
            0 <= k < equations.len() ==> (#[trigger] equations[k]).covered(
                compiler::first_seen(compiler::all_occurrences(equations)),
            ),
{
    let occurrences = compiler::all_occurrences(equations);
    let names = compiler::first_seen(occurrences);
    compiler::law_names(occurrences);
    assert forall|k: int| 0 <= k < equations.len() implies (#[trigger] equations[k]).covered(
        names,
    ) by {
        assert forall|i: int| 0 <= i < equations[k].occurrences().len() implies names.contains(
            #[trigger] equations[k].occurrences()[i],
        ) by {
            lemma_occurrence(equations, k, i);
        }
    }
}

impl<H: Elementary + Notation> Setup<H> {
    /// The setup is for the equations of some source expressions.
    pub open spec fn states(self, sources: Seq<Exp>) -> bool {
        &&& self.jacobian.expressions() == Seq::new(
            sources.len(),
            |i: int| compiler::indexed(sources[i], self.names),
        )
        &&& forall|i: int| 0 <= i < sources.len() ==> (#[trigger] sources[i]).covered(self.names)
    }

    /// `raw` holds values that the sources may have under named values.
    pub open spec fn sources_give(
        self,
        sources: Seq<Exp>,
        values: Map<Seq<char>, Binary64>,
        raw: Seq<Binary64>,
    ) -> bool {
        &&& raw.len() == sources.len()
        &&& forall|i: int|
            0 <= i < raw.len() ==> sources[i].meanings(self.host, values).contains(
                #[trigger] raw[i],
            )
    }

    /// A solution solves the equations that were written: under the values that
    /// it returns by name, the source expressions may have values whose scaled
    /// norm is the reported error, which is within tolerance.
    pub proof fn law_solution_solves_sources(
        self,
        sources: Seq<Exp>,
        first: Map<usize, Binary64>,
        s: Solution,
    )
        requires
            self.wf(),
            self.options.fault() is None,
            self.complete(first),
            self.runs(first, Ok(s)),
            self.states(sources),
        ensures
            s.error <= self.options.residual_tolerance,
            exists|raw: Seq<Binary64>| #[trigger]
                self.sources_give(sources, s.values@, raw) && s.error == self.error_of(raw),
    {
        self.law_solution_is_root(first, s);
        let (vars, raw) = choose|vars: Map<usize, Binary64>, raw: Seq<Binary64>| #[trigger]
            self.certifies(first, s, vars, raw);
        let g = newton::column_of(raw);
        assert(s.values@ =~= by_name(self.names, vars));
        assert forall|i: int| 0 <= i < raw.len() implies sources[i].meanings(
            self.host,
            s.values@,
        ).contains(#[trigger] raw[i]) by {
            assert(g.at(i, 0) == raw[i]);
            law_compiled_meaning(sources[i], self.names, self.host, vars);
        }
        assert(self.sources_give(sources, s.values@, raw));
    }
}

} // verus!
