//! The intermediate representation of a Lean development: inductive sorts,
//! constructors, functions, predicates and theorems, with expressions as
//! trees.  Reading the JSON document into these values is done outside the
//! library; here they are plain data, with a structural validation pass.
use vstd::prelude::*;
use crate::names::{contains_char, str_eq};

verus! {

broadcast use vstd::std_specs::vec::group_vec_axioms;

/// A whole IR document.
#[derive(Debug, Clone)]
pub struct LeanIR {
    /// Schema version, when given.
    pub version: Option<u32>,
    /// Source file the document was exported from, when given.
    pub source_file: Option<String>,
    /// Inductive sorts declared in the source.
    pub sorts: Vec<IRSort>,
    /// Data constructors of those inductives.
    pub constructors: Vec<IRConstructor>,
    /// Function definitions.
    pub functions: Vec<IRFunction>,
    /// Predicate (proposition-valued) definitions.
    pub predicates: Vec<IRPredicate>,
    /// Theorems declared in the source.
    pub theorems: Vec<IRTheorem>,
    /// Non-fatal issues reported while exporting.
    pub warnings: Vec<String>,
}

/// An inductive sort declaration.
#[derive(Debug, Clone)]
pub struct IRSort {
    /// Sort name (mangled for parameterized types).
    pub name: String,
    /// Sort kind, `"inductive"`.
    pub kind: String,
    /// Number of type parameters, when given.
    pub num_params: Option<u32>,
    /// Number of constructors, when given.
    pub num_ctors: Option<u32>,
}

/// A data constructor of some sort.
#[derive(Debug, Clone)]
pub struct IRConstructor {
    /// Constructor name (e.g. `Tree.leaf`).
    pub name: String,
    /// The inductive sort it builds.
    pub sort: String,
    /// Field sort names, in order.
    pub fields: Vec<String>,
}

/// A function definition.
#[derive(Debug, Clone)]
pub struct IRFunction {
    /// Function name.
    pub name: String,
    /// Domain sorts, in order.
    pub domain: Vec<String>,
    /// Codomain sort.
    pub codomain: String,
    /// Equation lemmas (for recursive definitions).
    pub equations: Vec<IREquation>,
}

/// A predicate definition.
#[derive(Debug, Clone)]
pub struct IRPredicate {
    /// Predicate name.
    pub name: String,
    /// Parameters with their sorts.
    pub params: Vec<IRParam>,
    /// The body; for recursive predicates the equations are preferred.
    pub body: IRExpr,
    /// Equation lemmas.
    pub equations: Vec<IREquation>,
}

/// A binder: name and sort.
#[derive(Debug, Clone)]
pub struct IRParam {
    /// Binder name.
    pub name: String,
    /// Binder sort.
    pub sort: String,
}

/// An equation lemma `∀ vars, lhs = rhs`.
#[derive(Debug, Clone)]
pub struct IREquation {
    /// Universally bound variables, outermost first.
    pub vars: Vec<IRParam>,
    /// Left-hand side.
    pub lhs: IRExpr,
    /// Right-hand side.
    pub rhs: IRExpr,
}

/// A theorem statement.
#[derive(Debug, Clone)]
pub struct IRTheorem {
    /// Theorem name.
    pub name: String,
    /// Leading hypotheses.
    pub hypotheses: Vec<IRHypothesis>,
    /// The conclusion.
    pub conclusion: IRExpr,
}

/// A hypothesis, named or bare.
#[derive(Debug, Clone)]
pub enum IRHypothesis {
    /// A named hypothesis.
    Named {
        /// Hypothesis name.
        name: String,
        /// The proposition.
        body: IRExpr,
    },
    /// A bare proposition.
    Expr(IRExpr),
}

impl IRHypothesis {
    /// The proposition, whatever the form.
    pub open spec fn body_spec(&self) -> IRExpr {
        match self {
            IRHypothesis::Expr(e) => *e,
            IRHypothesis::Named { body, .. } => *body,
        }
    }

    /// The proposition, whatever the form.
    pub fn body(&self) -> (r: &IRExpr)
        ensures
            *r == self.body_spec(),
    {
        match self {
            IRHypothesis::Expr(e) => e,
            IRHypothesis::Named { body, .. } => body,
        }
    }
}

/// An expression node.
#[derive(Debug)]
pub enum IRExpr {
    /// Reference to a variable by name.
    Var {
        /// Variable name.
        name: String,
    },
    /// Named application; `args` may be empty.
    App {
        /// Function or predicate name.
        fn_name: String,
        /// Arguments, in order.
        args: Vec<IRExpr>,
    },
    /// `∀ var:sort, body`.
    Forall {
        /// Binder name.
        var: String,
        /// Binder sort.
        sort: String,
        /// Body.
        body: Box<IRExpr>,
    },
    /// `∃ var:sort, body`.
    Exists {
        /// Binder name.
        var: String,
        /// Binder sort.
        sort: String,
        /// Body.
        body: Box<IRExpr>,
    },
    /// Conjunction.
    And {
        /// Left conjunct.
        left: Box<IRExpr>,
        /// Right conjunct.
        right: Box<IRExpr>,
    },
    /// Disjunction.
    Or {
        /// Left disjunct.
        left: Box<IRExpr>,
        /// Right disjunct.
        right: Box<IRExpr>,
    },
    /// Negation.
    Not {
        /// Negated proposition.
        body: Box<IRExpr>,
    },
    /// Implication.
    Implies {
        /// Antecedent.
        left: Box<IRExpr>,
        /// Consequent.
        right: Box<IRExpr>,
    },
    /// Biconditional.
    Iff {
        /// Left side.
        left: Box<IRExpr>,
        /// Right side.
        right: Box<IRExpr>,
    },
    /// Term equality.
    Eq {
        /// Left term.
        left: Box<IRExpr>,
        /// Right term.
        right: Box<IRExpr>,
    },
    /// Term disequality.
    Neq {
        /// Left term.
        left: Box<IRExpr>,
        /// Right term.
        right: Box<IRExpr>,
    },
    /// `left ≤ right`.
    Leq {
        /// Left term.
        left: Box<IRExpr>,
        /// Right term.
        right: Box<IRExpr>,
    },
    /// `left < right`.
    Lt {
        /// Left term.
        left: Box<IRExpr>,
        /// Right term.
        right: Box<IRExpr>,
    },
    /// `element ∈ collection`.
    Mem {
        /// The element.
        element: Box<IRExpr>,
        /// The collection.
        collection: Box<IRExpr>,
    },
    /// Natural-number literal.
    NatLit {
        /// The value.
        value: u64,
    },
    /// Truth.
    True,
    /// Falsity.
    False,
    /// A construct the exporter could not render.
    Unsupported {
        /// Why.
        description: String,
    },
}

/// Abstract value of an expression: strings by their characters.
pub enum IRExprV {
    Var(Seq<char>),
    App(Seq<char>, Seq<IRExprV>),
    Forall(Seq<char>, Seq<char>, Box<IRExprV>),
    Exists(Seq<char>, Seq<char>, Box<IRExprV>),
    And(Box<IRExprV>, Box<IRExprV>),
    Or(Box<IRExprV>, Box<IRExprV>),
    Not(Box<IRExprV>),
    Implies(Box<IRExprV>, Box<IRExprV>),
    Iff(Box<IRExprV>, Box<IRExprV>),
    Eq(Box<IRExprV>, Box<IRExprV>),
    Neq(Box<IRExprV>, Box<IRExprV>),
    Leq(Box<IRExprV>, Box<IRExprV>),
    Lt(Box<IRExprV>, Box<IRExprV>),
    Mem(Box<IRExprV>, Box<IRExprV>),
    NatLit(u64),
    True,
    False,
    Unsupported(Seq<char>),
}

/// The abstract value of an expression.
pub open spec fn expr_view(e: IRExpr) -> IRExprV
    decreases e,
{
    match e {
        IRExpr::Var { name } => IRExprV::Var(name@),
        IRExpr::App { fn_name, args } => {
            proof {
                assert(decreases_to!(args => args@));
            }
            IRExprV::App(fn_name@, exprs_view(args@))
        },
        IRExpr::Forall { var, sort, body } => IRExprV::Forall(var@, sort@, Box::new(expr_view(*body))),
        IRExpr::Exists { var, sort, body } => IRExprV::Exists(var@, sort@, Box::new(expr_view(*body))),
        IRExpr::And { left, right } => IRExprV::And(Box::new(expr_view(*left)), Box::new(expr_view(*right))),
        IRExpr::Or { left, right } => IRExprV::Or(Box::new(expr_view(*left)), Box::new(expr_view(*right))),
        IRExpr::Not { body } => IRExprV::Not(Box::new(expr_view(*body))),
        IRExpr::Implies { left, right } => IRExprV::Implies(Box::new(expr_view(*left)), Box::new(expr_view(*right))),
        IRExpr::Iff { left, right } => IRExprV::Iff(Box::new(expr_view(*left)), Box::new(expr_view(*right))),
        IRExpr::Eq { left, right } => IRExprV::Eq(Box::new(expr_view(*left)), Box::new(expr_view(*right))),
        IRExpr::Neq { left, right } => IRExprV::Neq(Box::new(expr_view(*left)), Box::new(expr_view(*right))),
        IRExpr::Leq { left, right } => IRExprV::Leq(Box::new(expr_view(*left)), Box::new(expr_view(*right))),
        IRExpr::Lt { left, right } => IRExprV::Lt(Box::new(expr_view(*left)), Box::new(expr_view(*right))),
        IRExpr::Mem { element, collection } => IRExprV::Mem(
            Box::new(expr_view(*element)),
            Box::new(expr_view(*collection)),
        ),
        IRExpr::NatLit { value } => IRExprV::NatLit(value),
        IRExpr::True => IRExprV::True,
        IRExpr::False => IRExprV::False,
        IRExpr::Unsupported { description } => IRExprV::Unsupported(description@),
    }
}

/// The abstract values of a list of expressions.
pub open spec fn exprs_view(es: Seq<IRExpr>) -> Seq<IRExprV>
    decreases es,
{
    Seq::new(es.len(), |i: int| if 0 <= i < es.len() { expr_view(es[i]) } else { IRExprV::True })
}

impl View for IRExpr {
    type V = IRExprV;

    open spec fn view(&self) -> IRExprV {
        expr_view(*self)
    }
}

/// A deep copy of an expression.
pub fn copy_expr(e: &IRExpr) -> (r: IRExpr)
    ensures
        r@ == e@,
    decreases e, 0nat,
{
    match e {
        IRExpr::Var { name } => IRExpr::Var { name: name.clone() },
        IRExpr::App { fn_name, args } => IRExpr::App { fn_name: fn_name.clone(), args: copy_exprs(args) },
        IRExpr::Forall { var, sort, body } => IRExpr::Forall {
            var: var.clone(),
            sort: sort.clone(),
            body: Box::new(copy_expr(body)),
        },
        IRExpr::Exists { var, sort, body } => IRExpr::Exists {
            var: var.clone(),
            sort: sort.clone(),
            body: Box::new(copy_expr(body)),
        },
        IRExpr::And { left, right } => IRExpr::And { left: Box::new(copy_expr(left)), right: Box::new(copy_expr(right)) },
        IRExpr::Or { left, right } => IRExpr::Or { left: Box::new(copy_expr(left)), right: Box::new(copy_expr(right)) },
        IRExpr::Not { body } => IRExpr::Not { body: Box::new(copy_expr(body)) },
        IRExpr::Implies { left, right } => IRExpr::Implies {
            left: Box::new(copy_expr(left)),
            right: Box::new(copy_expr(right)),
        },
        IRExpr::Iff { left, right } => IRExpr::Iff { left: Box::new(copy_expr(left)), right: Box::new(copy_expr(right)) },
        IRExpr::Eq { left, right } => IRExpr::Eq { left: Box::new(copy_expr(left)), right: Box::new(copy_expr(right)) },
        IRExpr::Neq { left, right } => IRExpr::Neq { left: Box::new(copy_expr(left)), right: Box::new(copy_expr(right)) },
        IRExpr::Leq { left, right } => IRExpr::Leq { left: Box::new(copy_expr(left)), right: Box::new(copy_expr(right)) },
        IRExpr::Lt { left, right } => IRExpr::Lt { left: Box::new(copy_expr(left)), right: Box::new(copy_expr(right)) },
        IRExpr::Mem { element, collection } => IRExpr::Mem {
            element: Box::new(copy_expr(element)),
            collection: Box::new(copy_expr(collection)),
        },
        IRExpr::NatLit { value } => IRExpr::NatLit { value: *value },
        IRExpr::True => IRExpr::True,
        IRExpr::False => IRExpr::False,
        IRExpr::Unsupported { description } => IRExpr::Unsupported { description: description.clone() },
    }
}

/// A deep copy of a list of expressions.
pub fn copy_exprs(es: &Vec<IRExpr>) -> (r: Vec<IRExpr>)
    ensures
        exprs_view(r@) == exprs_view(es@),
        r@.len() == es@.len(),
    decreases es, 1nat,
{
    let mut out: Vec<IRExpr> = Vec::new();
    let mut i: usize = 0;
    while i < es.len()
        invariant
            i <= es.len(),
            out@.len() == i,
            forall|k: int| 0 <= k < i ==> (#[trigger] out@[k])@ == es@[k]@,
        decreases es.len() - i,
    {
        proof {
            assert(decreases_to!(es => es[i as int]));
        }
        out.push(copy_expr(&es[i]));
        i = i + 1;
    }
    assert(exprs_view(out@) =~= exprs_view(es@));
    out
}

impl Clone for IRExpr {
    fn clone(&self) -> (r: Self)
        ensures
            r@ == self@,
    {
        copy_expr(self)
    }
}

/// Sorts always known: `Nat`, `Int`, `Bool`, `Prop`.
pub open spec fn builtin_sort(name: Seq<char>) -> bool {
    name == "Nat"@ || name == "Int"@ || name == "Bool"@ || name == "Prop"@
}

/// `name` is one of the built-in sorts.
pub fn is_builtin_sort(name: &str) -> (r: bool)
    ensures
        r == builtin_sort(name@),
{
    str_eq(name, "Nat") || str_eq(name, "Int") || str_eq(name, "Bool") || str_eq(name, "Prop")
}

/// Placeholder or mangled sort names (any name with an underscore), which
/// validation does not report.
pub open spec fn placeholder_sort(name: Seq<char>) -> bool {
    name.contains('_')
}

/// A declared or built-in sort.
pub open spec fn known_sort(sorts: Seq<IRSort>, name: Seq<char>) -> bool {
    builtin_sort(name) || exists|i: int| 0 <= i < sorts.len() && (#[trigger] sorts[i]).name@ == name
}

/// Concatenation of string views.
pub open spec fn cat3(a: Seq<char>, b: Seq<char>, c: Seq<char>) -> Seq<char> {
    a + b + c
}

/// Messages for the field sorts of one constructor.
pub open spec fn field_msgs(sorts: Seq<IRSort>, cname: Seq<char>, fields: Seq<String>) -> Seq<Seq<char>>
    decreases fields.len(),
{
    if fields.len() == 0 {
        seq![]
    } else {
        let f = fields.last()@;
        field_msgs(sorts, cname, fields.drop_last()) + if !known_sort(sorts, f) && !placeholder_sort(f) {
            seq![cat3("constructor '"@ + cname, "' field references unknown sort '"@ + f, "'"@)]
        } else {
            seq![]
        }
    }
}

/// Messages for one constructor.
pub open spec fn ctor_msgs(sorts: Seq<IRSort>, c: IRConstructor) -> Seq<Seq<char>> {
    (if !known_sort(sorts, c.sort@) {
        seq![cat3("constructor '"@ + c.name@, "' references unknown sort '"@ + c.sort@, "'"@)]
    } else {
        seq![]
    }) + field_msgs(sorts, c.name@, c.fields@)
}

/// Messages for the first constructors.
pub open spec fn ctors_msgs(sorts: Seq<IRSort>, cs: Seq<IRConstructor>) -> Seq<Seq<char>>
    decreases cs.len(),
{
    if cs.len() == 0 {
        seq![]
    } else {
        ctors_msgs(sorts, cs.drop_last()) + ctor_msgs(sorts, cs.last())
    }
}

/// Messages for the domain sorts of one function.
pub open spec fn domain_msgs(sorts: Seq<IRSort>, fname: Seq<char>, dom: Seq<String>) -> Seq<Seq<char>>
    decreases dom.len(),
{
    if dom.len() == 0 {
        seq![]
    } else {
        let d = dom.last()@;
        domain_msgs(sorts, fname, dom.drop_last()) + if !known_sort(sorts, d) && !placeholder_sort(d) {
            seq![cat3("function '"@ + fname, "' domain references unknown sort '"@ + d, "'"@)]
        } else {
            seq![]
        }
    }
}

/// Messages for one function.
pub open spec fn fn_msgs(sorts: Seq<IRSort>, f: IRFunction) -> Seq<Seq<char>> {
    domain_msgs(sorts, f.name@, f.domain@) + if !known_sort(sorts, f.codomain@) && !placeholder_sort(
        f.codomain@,
    ) {
        seq![cat3("function '"@ + f.name@, "' codomain references unknown sort '"@ + f.codomain@, "'"@)]
    } else {
        seq![]
    }
}

/// Messages for the first functions.
pub open spec fn fns_msgs(sorts: Seq<IRSort>, fs: Seq<IRFunction>) -> Seq<Seq<char>>
    decreases fs.len(),
{
    if fs.len() == 0 {
        seq![]
    } else {
        fns_msgs(sorts, fs.drop_last()) + fn_msgs(sorts, fs.last())
    }
}

/// Messages for the parameters of one predicate.
pub open spec fn param_msgs(sorts: Seq<IRSort>, pname: Seq<char>, ps: Seq<IRParam>) -> Seq<Seq<char>>
    decreases ps.len(),
{
    if ps.len() == 0 {
        seq![]
    } else {
        let p = ps.last();
        param_msgs(sorts, pname, ps.drop_last()) + if !known_sort(sorts, p.sort@) && !placeholder_sort(
            p.sort@,
        ) {
            seq![
                cat3(
                    "predicate '"@ + pname + "' parameter '"@,
                    p.name@ + "' references unknown sort '"@ + p.sort@,
                    "'"@,
                ),
            ]
        } else {
            seq![]
        }
    }
}

/// Messages for the first predicates.
pub open spec fn preds_msgs(sorts: Seq<IRSort>, ps: Seq<IRPredicate>) -> Seq<Seq<char>>
    decreases ps.len(),
{
    if ps.len() == 0 {
        seq![]
    } else {
        preds_msgs(sorts, ps.drop_last()) + param_msgs(sorts, ps.last().name@, ps.last().params@)
    }
}

/// Names of the sorts.
pub open spec fn ir_sort_names(v: Seq<IRSort>) -> Seq<Seq<char>>
    decreases v.len(),
{
    if v.len() == 0 { seq![] } else { ir_sort_names(v.drop_last()).push(v.last().name@) }
}

/// Names of the constructors.
pub open spec fn ir_ctor_names(v: Seq<IRConstructor>) -> Seq<Seq<char>>
    decreases v.len(),
{
    if v.len() == 0 { seq![] } else { ir_ctor_names(v.drop_last()).push(v.last().name@) }
}

/// Names of the functions.
pub open spec fn ir_fn_names(v: Seq<IRFunction>) -> Seq<Seq<char>>
    decreases v.len(),
{
    if v.len() == 0 { seq![] } else { ir_fn_names(v.drop_last()).push(v.last().name@) }
}

/// Names of the predicates.
pub open spec fn ir_pred_names(v: Seq<IRPredicate>) -> Seq<Seq<char>>
    decreases v.len(),
{
    if v.len() == 0 { seq![] } else { ir_pred_names(v.drop_last()).push(v.last().name@) }
}

/// The top-level names: sorts, constructors, functions, predicates.
pub open spec fn top_names(ir: LeanIR) -> Seq<Seq<char>> {
    ir_sort_names(ir.sorts@) + ir_ctor_names(ir.constructors@) + ir_fn_names(ir.functions@) + ir_pred_names(
        ir.predicates@,
    )
}

/// One message for every name that repeats an earlier one, in order.
pub open spec fn dup_msgs(names: Seq<Seq<char>>) -> Seq<Seq<char>>
    decreases names.len(),
{
    if names.len() == 0 {
        seq![]
    } else {
        let n = names.last();
        dup_msgs(names.drop_last()) + if names.drop_last().contains(n) {
            seq!["duplicate top-level name: '"@ + n + "'"@]
        } else {
            seq![]
        }
    }
}

/// Every warning of [`LeanIR::validate`], in order.
pub open spec fn validation_msgs(ir: LeanIR) -> Seq<Seq<char>> {
    ctors_msgs(ir.sorts@, ir.constructors@) + fns_msgs(ir.sorts@, ir.functions@) + preds_msgs(
        ir.sorts@,
        ir.predicates@,
    ) + dup_msgs(top_names(ir))
}

/// Views of a list of strings.
pub open spec fn strings_view(v: Seq<String>) -> Seq<Seq<char>> {
    v.map_values(|s: String| s@)
}

/// `a + b + c` as a string.
pub fn concat3(a: &str, b: &str, c: &str) -> (r: String)
    ensures
        r@ == a@ + b@ + c@,
{
    let mut s = String::from_str(a);
    s.append(b);
    s.append(c);
    s
}

fn push_msg(out: &mut Vec<String>, m: String)
    ensures
        strings_view(final(out)@) == strings_view(old(out)@).push(m@),
{
    out.push(m);
    assert(strings_view(out@) =~= strings_view(old(out)@).push(m@));
}

impl LeanIR {
    /// `name` is a declared or built-in sort.
    fn knows_sort(&self, name: &str) -> (r: bool)
        ensures
            r == known_sort(self.sorts@, name@),
    {
        if is_builtin_sort(name) {
            return true;
        }
        let mut i: usize = 0;
        while i < self.sorts.len()
            invariant
                i <= self.sorts@.len(),
                !builtin_sort(name@),
                forall|j: int| 0 <= j < i ==> (#[trigger] self.sorts@[j]).name@ != name@,
            decreases self.sorts.len() - i,
        {
            if str_eq(self.sorts[i].name.as_str(), name) {
                return true;
            }
            i = i + 1;
        }
        false
    }

    /// Structural validation: a warning for each reference to an unknown
    /// sort (built-ins and names with an underscore are known) by a
    /// constructor, a function or a predicate parameter, then one for each
    /// top-level name that repeats an earlier one.
    pub fn validate(&self) -> (r: Vec<String>)
        ensures
            strings_view(r@) == validation_msgs(*self),
    {
        let mut out: Vec<String> = Vec::new();
        let mut i: usize = 0;
        while i < self.constructors.len()
            invariant
                i <= self.constructors@.len(),
                strings_view(out@) == ctors_msgs(self.sorts@, self.constructors@.subrange(0, i as int)),
            decreases self.constructors.len() - i,
        {
            let c = &self.constructors[i];
            proof {
                assert(self.constructors@.subrange(0, i + 1).drop_last() =~= self.constructors@.subrange(0, i as int));
            }
            let ghost before = strings_view(out@);
            if !self.knows_sort(c.sort.as_str()) {
                let m = concat3("constructor '", c.name.as_str(), "' references unknown sort '");
                let m2 = concat3(m.as_str(), c.sort.as_str(), "'");
                push_msg(&mut out, m2);
                proof {
                    assert(m2@ =~= cat3("constructor '"@ + c.name@, "' references unknown sort '"@ + c.sort@, "'"@));
                }
            }
            let ghost mid = strings_view(out@);
            assert(mid == before + (if !known_sort(self.sorts@, c.sort@) {
                seq![cat3("constructor '"@ + c.name@, "' references unknown sort '"@ + c.sort@, "'"@)]
            } else {
                seq![]
            })) by {
                if known_sort(self.sorts@, c.sort@) {
                    assert(mid =~= before + seq![]);
                }
            }
            let mut j: usize = 0;
            while j < c.fields.len()
                invariant
                    j <= c.fields@.len(),
                    strings_view(out@) == mid + field_msgs(self.sorts@, c.name@, c.fields@.subrange(0, j as int)),
                decreases c.fields.len() - j,
            {
                let f = c.fields[j].as_str();
                proof {
                    assert(c.fields@.subrange(0, j + 1).drop_last() =~= c.fields@.subrange(0, j as int));
                }
                let ghost b2 = strings_view(out@);
                if !self.knows_sort(f) && !contains_char(f, '_') {
                    let m = concat3("constructor '", c.name.as_str(), "' field references unknown sort '");
                    let m2 = concat3(m.as_str(), f, "'");
                    push_msg(&mut out, m2);
                    proof {
                        assert(m2@ =~= cat3("constructor '"@ + c.name@, "' field references unknown sort '"@ + f@, "'"@));
                        assert(strings_view(out@) =~= mid + field_msgs(self.sorts@, c.name@, c.fields@.subrange(0, j + 1)));
                    }
                } else {
                    proof {
                        assert(strings_view(out@) =~= mid + field_msgs(self.sorts@, c.name@, c.fields@.subrange(0, j + 1)));
                    }
                }
                j = j + 1;
            }
            proof {
                assert(c.fields@.subrange(0, j as int) =~= c.fields@);
                assert(strings_view(out@) =~= ctors_msgs(self.sorts@, self.constructors@.subrange(0, i + 1)));
            }
            i = i + 1;
        }
        proof {
            assert(self.constructors@.subrange(0, i as int) =~= self.constructors@);
        }
        let ghost after_ctors = strings_view(out@);
        let mut i: usize = 0;
        while i < self.functions.len()
            invariant
                i <= self.functions@.len(),
                strings_view(out@) == after_ctors + fns_msgs(self.sorts@, self.functions@.subrange(0, i as int)),
            decreases self.functions.len() - i,
        {
            let f = &self.functions[i];
            proof {
                assert(self.functions@.subrange(0, i + 1).drop_last() =~= self.functions@.subrange(0, i as int));
            }
            let ghost before = strings_view(out@);
            let mut j: usize = 0;
            while j < f.domain.len()
                invariant
                    j <= f.domain@.len(),
                    strings_view(out@) == before + domain_msgs(self.sorts@, f.name@, f.domain@.subrange(0, j as int)),
                decreases f.domain.len() - j,
            {
                let d = f.domain[j].as_str();
                proof {
                    assert(f.domain@.subrange(0, j + 1).drop_last() =~= f.domain@.subrange(0, j as int));
                }
                if !self.knows_sort(d) && !contains_char(d, '_') {
                    let m = concat3("function '", f.name.as_str(), "' domain references unknown sort '");
                    let m2 = concat3(m.as_str(), d, "'");
                    push_msg(&mut out, m2);
                    proof {
                        assert(m2@ =~= cat3("function '"@ + f.name@, "' domain references unknown sort '"@ + d@, "'"@));
                    }
                }
                proof {
                    assert(strings_view(out@) =~= before + domain_msgs(self.sorts@, f.name@, f.domain@.subrange(0, j + 1)));
                }
                j = j + 1;
            }
            proof {
                assert(f.domain@.subrange(0, j as int) =~= f.domain@);
            }
            if !self.knows_sort(f.codomain.as_str()) && !contains_char(f.codomain.as_str(), '_') {
                let m = concat3("function '", f.name.as_str(), "' codomain references unknown sort '");
                let m2 = concat3(m.as_str(), f.codomain.as_str(), "'");
                push_msg(&mut out, m2);
                proof {
                    assert(m2@ =~= cat3("function '"@ + f.name@, "' codomain references unknown sort '"@ + f.codomain@, "'"@));
                }
            }
            proof {
                assert(strings_view(out@) =~= after_ctors + fns_msgs(self.sorts@, self.functions@.subrange(0, i + 1)));
            }
            i = i + 1;
        }
        proof {
            assert(self.functions@.subrange(0, i as int) =~= self.functions@);
        }
        let ghost after_fns = strings_view(out@);
        let mut i: usize = 0;
        while i < self.predicates.len()
            invariant
                i <= self.predicates@.len(),
                strings_view(out@) == after_fns + preds_msgs(self.sorts@, self.predicates@.subrange(0, i as int)),
            decreases self.predicates.len() - i,
        {
            let p = &self.predicates[i];
            proof {
                assert(self.predicates@.subrange(0, i + 1).drop_last() =~= self.predicates@.subrange(0, i as int));
            }
            let ghost before = strings_view(out@);
            let mut j: usize = 0;
            while j < p.params.len()
                invariant
                    j <= p.params@.len(),
                    strings_view(out@) == before + param_msgs(self.sorts@, p.name@, p.params@.subrange(0, j as int)),
                decreases p.params.len() - j,
            {
                let q = &p.params[j];
                proof {
                    assert(p.params@.subrange(0, j + 1).drop_last() =~= p.params@.subrange(0, j as int));
                }
                if !self.knows_sort(q.sort.as_str()) && !contains_char(q.sort.as_str(), '_') {
                    let m = concat3("predicate '", p.name.as_str(), "' parameter '");
                    let m2 = concat3(q.name.as_str(), "' references unknown sort '", q.sort.as_str());
                    let m3 = concat3(m.as_str(), m2.as_str(), "'");
                    push_msg(&mut out, m3);
                    proof {
                        assert(m3@ =~= cat3(
                            "predicate '"@ + p.name@ + "' parameter '"@,
                            q.name@ + "' references unknown sort '"@ + q.sort@,
                            "'"@,
                        ));
                    }
                }
                proof {
                    assert(strings_view(out@) =~= before + param_msgs(self.sorts@, p.name@, p.params@.subrange(0, j + 1)));
                }
                j = j + 1;
            }
            proof {
                assert(p.params@.subrange(0, j as int) =~= p.params@);
                assert(strings_view(out@) =~= after_fns + preds_msgs(self.sorts@, self.predicates@.subrange(0, i + 1)));
            }
            i = i + 1;
        }
        proof {
            assert(self.predicates@.subrange(0, i as int) =~= self.predicates@);
        }
        let names = self.top_level_names();
        let ghost after_preds = strings_view(out@);
        let mut k: usize = 0;
        while k < names.len()
            invariant
                k <= names@.len(),
                strs_view(names@) == top_names(*self),
                strings_view(out@) == after_preds + dup_msgs(strs_view(names@).subrange(0, k as int)),
            decreases names.len() - k,
        {
            let ghost nv = strs_view(names@);
            proof {
                assert(nv.subrange(0, k + 1).drop_last() =~= nv.subrange(0, k as int));
                assert(nv.subrange(0, k + 1).last() == nv[k as int]);
            }
            let mut seen = false;
            let mut j: usize = 0;
            while j < k
                invariant
                    j <= k,
                    k < names@.len(),
                    nv == strs_view(names@),
                    seen <==> exists|w: int| 0 <= w < j && #[trigger] nv[w] == nv[k as int],
                decreases k - j,
            {
                if str_eq(names[j], names[k]) {
                    seen = true;
                    proof {
                        assert(nv[j as int] == nv[k as int]);
                    }
                } else {
                    proof {
                        assert(nv[j as int] != nv[k as int]);
                    }
                }
                j = j + 1;
            }
            proof {
                let pre = nv.subrange(0, k as int);
                if seen {
                    let w = choose|w: int| 0 <= w < k && #[trigger] nv[w] == nv[k as int];
                    assert(pre[w] == nv[k as int]);
                }
                if pre.contains(nv[k as int]) {
                    let w = choose|w: int| 0 <= w < pre.len() && pre[w] == nv[k as int];
                    assert(nv[w] == nv[k as int]);
                }
                assert(seen == pre.contains(nv[k as int]));
            }
            if seen {
                let m = concat3("duplicate top-level name: '", names[k], "'");
                push_msg(&mut out, m);
            }
            proof {
                assert(strings_view(out@) =~= after_preds + dup_msgs(nv.subrange(0, k + 1)));
            }
            k = k + 1;
        }
        proof {
            assert(strs_view(names@).subrange(0, k as int) =~= top_names(*self));
        }
        out
    }

    fn top_level_names(&self) -> (r: Vec<&str>)
        ensures
            strs_view(r@) == top_names(*self),
    {
        let mut out: Vec<&str> = Vec::new();
        let mut i: usize = 0;
        while i < self.sorts.len()
            invariant
                i <= self.sorts@.len(),
                strs_view(out@) == ir_sort_names(self.sorts@.subrange(0, i as int)),
            decreases self.sorts.len() - i,
        {
            proof {
                assert(self.sorts@.subrange(0, i + 1).drop_last() =~= self.sorts@.subrange(0, i as int));
            }
            out.push(self.sorts[i].name.as_str());
            proof {
                assert(strs_view(out@) =~= ir_sort_names(self.sorts@.subrange(0, i + 1)));
            }
            i = i + 1;
        }
        proof {
            assert(self.sorts@.subrange(0, i as int) =~= self.sorts@);
        }
        let ghost a = strs_view(out@);
        let mut i: usize = 0;
        while i < self.constructors.len()
            invariant
                i <= self.constructors@.len(),
                strs_view(out@) == a + ir_ctor_names(self.constructors@.subrange(0, i as int)),
            decreases self.constructors.len() - i,
        {
            proof {
                assert(self.constructors@.subrange(0, i + 1).drop_last() =~= self.constructors@.subrange(0, i as int));
            }
            let ghost ov = strs_view(out@);
            out.push(self.constructors[i].name.as_str());
            proof {
                assert(strs_view(out@) =~= ov.push(self.constructors@[i as int].name@));
                assert(ir_ctor_names(self.constructors@.subrange(0, i + 1)) == ir_ctor_names(self.constructors@.subrange(0, i as int)).push(self.constructors@[i as int].name@));
                assert(strs_view(out@) =~= a + ir_ctor_names(self.constructors@.subrange(0, i + 1)));
            }
            i = i + 1;
        }
        proof {
            assert(self.constructors@.subrange(0, i as int) =~= self.constructors@);
        }
        let ghost b = strs_view(out@);
        let mut i: usize = 0;
        while i < self.functions.len()
            invariant
                i <= self.functions@.len(),
                strs_view(out@) == b + ir_fn_names(self.functions@.subrange(0, i as int)),
            decreases self.functions.len() - i,
        {
            proof {
                assert(self.functions@.subrange(0, i + 1).drop_last() =~= self.functions@.subrange(0, i as int));
            }
            let ghost ov = strs_view(out@);
            out.push(self.functions[i].name.as_str());
            proof {
                assert(strs_view(out@) =~= ov.push(self.functions@[i as int].name@));
                assert(ir_fn_names(self.functions@.subrange(0, i + 1)) == ir_fn_names(self.functions@.subrange(0, i as int)).push(self.functions@[i as int].name@));
                assert(strs_view(out@) =~= b + ir_fn_names(self.functions@.subrange(0, i + 1)));
            }
            i = i + 1;
        }
        proof {
            assert(self.functions@.subrange(0, i as int) =~= self.functions@);
        }
        let ghost c = strs_view(out@);
        let mut i: usize = 0;
        while i < self.predicates.len()
            invariant
                i <= self.predicates@.len(),
                strs_view(out@) == c + ir_pred_names(self.predicates@.subrange(0, i as int)),
            decreases self.predicates.len() - i,
        {
            proof {
                assert(self.predicates@.subrange(0, i + 1).drop_last() =~= self.predicates@.subrange(0, i as int));
            }
            let ghost ov = strs_view(out@);
            out.push(self.predicates[i].name.as_str());
            proof {
                assert(strs_view(out@) =~= ov.push(self.predicates@[i as int].name@));
                assert(ir_pred_names(self.predicates@.subrange(0, i + 1)) == ir_pred_names(self.predicates@.subrange(0, i as int)).push(self.predicates@[i as int].name@));
                assert(strs_view(out@) =~= c + ir_pred_names(self.predicates@.subrange(0, i + 1)));
            }
            i = i + 1;
        }
        proof {
            assert(self.predicates@.subrange(0, i as int) =~= self.predicates@);
            assert(strs_view(out@) =~= top_names(*self));
        }
        out
    }
}

/// Views of a list of string slices.
pub open spec fn strs_view(v: Seq<&str>) -> Seq<Seq<char>> {
    v.map_values(|s: &str| s@)
}

} // verus!
