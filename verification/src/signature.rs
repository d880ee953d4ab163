//! First-order signatures Σ: sorts, function symbols (domain → codomain)
//! and relation symbols (arity tuples).
//!
//! Symbol sets are kept as vectors sorted strictly by name, which is the
//! order a set of symbols is walked in everywhere else in the library
//! (enumeration order of relations, the "first" sort, report listings).
use vstd::prelude::*;
use crate::names::{
    lemma_lex_lt_trans, lemma_lex_order_antisym, lemma_lex_order_refl, lemma_lex_order_zero_eq,
    lex_lt, str_eq, str_lt,
};
use num_bigint::BigUint;
use crate::bignum::{big_from_usize, big_mul, big_pow, big_to_u32, biguint_value};
use crate::model::pow_nat;

verus! {

/// A sort (type) in the signature.
#[derive(Debug, Clone, PartialEq, Eq, Hash, PartialOrd, Ord)]
pub struct SortSymbol {
    /// The textual name of the sort.
    pub name: String,
}

/// Abstract value of a function symbol.
pub struct FunSym {
    pub name: Seq<char>,
    pub domain: Seq<Seq<char>>,
    pub codomain: Seq<char>,
}

/// Abstract value of a relation symbol.
pub struct RelSym {
    pub name: Seq<char>,
    pub arity: Seq<Seq<char>>,
}

/// A function symbol with its arity (domain sorts → codomain sort).  A
/// function symbol with an empty `domain` is a constant.
#[derive(Debug, Clone, PartialEq, Eq, Hash, PartialOrd, Ord)]
pub struct FunctionSymbol {
    /// The textual name of the function.
    pub name: String,
    /// The list of domain sorts, in order.
    pub domain: Vec<SortSymbol>,
    /// The codomain sort.
    pub codomain: SortSymbol,
}

/// A relation symbol with its arity.
#[derive(Debug, Clone, PartialEq, Eq, Hash, PartialOrd, Ord)]
pub struct RelationSymbol {
    /// The textual name of the relation.
    pub name: String,
    /// The list of sorts the relation relates, in order.
    pub arity: Vec<SortSymbol>,
}

/// Names of a sequence of sorts.
pub open spec fn sort_names(s: Seq<SortSymbol>) -> Seq<Seq<char>> {
    s.map_values(|x: SortSymbol| x.name@)
}

impl View for SortSymbol {
    type V = Seq<char>;

    open spec fn view(&self) -> Seq<char> {
        self.name@
    }
}

impl View for FunctionSymbol {
    type V = FunSym;

    open spec fn view(&self) -> FunSym {
        FunSym { name: self.name@, domain: sort_names(self.domain@), codomain: self.codomain.name@ }
    }
}

impl View for RelationSymbol {
    type V = RelSym;

    open spec fn view(&self) -> RelSym {
        RelSym { name: self.name@, arity: sort_names(self.arity@) }
    }
}

/// Things identified by a name: symbols of every kind.
pub trait Named: Sized {
    /// The name that identifies the value.
    spec fn key(&self) -> Seq<char>;

    /// The name, as a string slice.
    fn name_str(&self) -> (r: &str)
        ensures
            r@ == self.key(),
    ;
}

impl Named for SortSymbol {
    open spec fn key(&self) -> Seq<char> {
        self.name@
    }

    fn name_str(&self) -> (r: &str) {
        self.name.as_str()
    }
}

impl Named for FunctionSymbol {
    open spec fn key(&self) -> Seq<char> {
        self.name@
    }

    fn name_str(&self) -> (r: &str) {
        self.name.as_str()
    }
}

impl Named for RelationSymbol {
    open spec fn key(&self) -> Seq<char> {
        self.name@
    }

    fn name_str(&self) -> (r: &str) {
        self.name.as_str()
    }
}

/// Names strictly increasing along the sequence.
pub open spec fn sorted_by_key<T: Named>(s: Seq<T>) -> bool {
    forall|i: int, j: int| 0 <= i < j < s.len() ==> lex_lt(#[trigger] s[i].key(), #[trigger] s[j].key())
}

/// No two entries share a name.
pub open spec fn distinct_keys<T: Named>(s: Seq<T>) -> bool {
    forall|i: int, j: int| 0 <= i < j < s.len() ==> #[trigger] s[i].key() != #[trigger] s[j].key()
}

/// The names of a sequence of named values.
pub open spec fn keys<T: Named>(s: Seq<T>) -> Seq<Seq<char>> {
    s.map_values(|x: T| x.key())
}

/// Copy a string.
pub fn copy_string(s: &String) -> (r: String)
    ensures
        r@ == s@,
{
    s.clone()
}

/// Build a string from a slice.
pub fn string_of(s: &str) -> (r: String)
    ensures
        r@ == s@,
{
    s.to_owned()
}

impl SortSymbol {
    /// Build a sort from its name.
    pub fn new(name: &str) -> (s: Self)
        ensures
            s@ == name@,
    {
        SortSymbol { name: string_of(name) }
    }

    /// A copy with the same name.
    pub fn copy(&self) -> (r: Self)
        ensures
            r@ == self@,
    {
        SortSymbol { name: copy_string(&self.name) }
    }
}

/// Copy a list of sorts.
pub fn copy_sorts(v: &Vec<SortSymbol>) -> (r: Vec<SortSymbol>)
    ensures
        sort_names(r@) == sort_names(v@),
        r@.len() == v@.len(),
{
    let mut r: Vec<SortSymbol> = Vec::new();
    let mut i: usize = 0;
    while i < v.len()
        invariant
            i <= v.len(),
            r@.len() == i,
            forall|j: int| 0 <= j < i ==> #[trigger] r@[j]@ == v@[j]@,
        decreases v.len() - i,
    {
        r.push(v[i].copy());
        i = i + 1;
    }
    assert forall|j: int| 0 <= j < r@.len() implies #[trigger] sort_names(r@)[j] == sort_names(v@)[j] by {
        assert(r@[j]@ == v@[j]@);
    }
    assert(sort_names(r@) =~= sort_names(v@));
    r
}

impl FunctionSymbol {
    /// Build a function symbol.
    pub fn new(name: &str, domain: Vec<SortSymbol>, codomain: SortSymbol) -> (f: Self)
        ensures
            f.name@ == name@,
            f.domain == domain,
            f.codomain == codomain,
    {
        FunctionSymbol { name: string_of(name), domain, codomain }
    }

    /// True iff this is a 0-ary function (a constant).
    pub fn is_constant(&self) -> (r: bool)
        ensures
            r == (self.domain@.len() == 0),
    {
        self.domain.len() == 0
    }

    /// A copy with the same name, domain and codomain.
    pub fn copy(&self) -> (r: Self)
        ensures
            r@ == self@,
    {
        FunctionSymbol {
            name: copy_string(&self.name),
            domain: copy_sorts(&self.domain),
            codomain: self.codomain.copy(),
        }
    }
}

impl RelationSymbol {
    /// Build a relation symbol.
    pub fn new(name: &str, arity: Vec<SortSymbol>) -> (r: Self)
        ensures
            r.name@ == name@,
            r.arity == arity,
    {
        RelationSymbol { name: string_of(name), arity }
    }

    /// A copy with the same name and arity.
    pub fn copy(&self) -> (r: Self)
        ensures
            r@ == self@,
    {
        RelationSymbol { name: copy_string(&self.name), arity: copy_sorts(&self.arity) }
    }
}

/// `x` and `y` hold the same elements.
pub open spec fn same_elements<T>(x: Seq<T>, y: Seq<T>) -> bool {
    x.len() == y.len() && forall|e: T| x.contains(e) <==> y.contains(e)
}

/// Insert `x` into the name-sorted vector `v`, keeping it sorted.
fn insert_by_key<T: Named>(v: &mut Vec<T>, x: T)
    requires
        sorted_by_key(old(v)@),
        forall|i: int| 0 <= i < old(v)@.len() ==> #[trigger] old(v)@[i].key() != x.key(),
    ensures
        sorted_by_key(final(v)@),
        forall|e: T| final(v)@.contains(e) <==> (old(v)@.contains(e) || e == x),
        final(v)@.len() == old(v)@.len() + 1,
{
    let mut pos: usize = 0;
    let n = v.len();
    let xk = x.name_str();
    while pos < n
        invariant
            n == v@.len(),
            v@ == old(v)@,
            pos <= n,
            xk@ == x.key(),
            sorted_by_key(v@),
            forall|i: int| 0 <= i < pos ==> lex_lt(#[trigger] v@[i].key(), x.key()),
        ensures
            pos <= n,
            v@ == old(v)@,
            forall|i: int| 0 <= i < pos ==> lex_lt(#[trigger] v@[i].key(), x.key()),
            pos < n ==> !lex_lt(v@[pos as int].key(), x.key()),
        decreases n - pos,
    {
        if !str_lt(v[pos].name_str(), xk) {
            break;
        }
        pos = pos + 1;
    }
    proof {
        if pos < n {
            lemma_lex_order_antisym(v@[pos as int].key(), x.key());
            lemma_lex_order_zero_eq(v@[pos as int].key(), x.key());
            assert(v@[pos as int].key() != x.key());
            assert(lex_lt(x.key(), v@[pos as int].key()));
            assert forall|j: int| pos <= j < n implies lex_lt(x.key(), #[trigger] v@[j].key()) by {
                if j > pos {
                    assert(lex_lt(v@[pos as int].key(), v@[j].key()));
                    lemma_lex_lt_trans(x.key(), v@[pos as int].key(), v@[j].key());
                }
            }
        }
    }
    let ghost old_v = v@;
    v.insert(pos, x);
    proof {
        assert forall|i: int, j: int| 0 <= i < j < v@.len() implies lex_lt(
            #[trigger] v@[i].key(),
            #[trigger] v@[j].key(),
        ) by {
            if j < pos {
                assert(v@[i] == old_v[i] && v@[j] == old_v[j]);
            } else if j == pos {
                assert(v@[i] == old_v[i]);
            } else if i < pos {
                assert(v@[i] == old_v[i] && v@[j] == old_v[j - 1]);
                lemma_lex_lt_trans(v@[i].key(), x.key(), v@[j].key());
            } else if i == pos {
                assert(v@[j] == old_v[j - 1]);
            } else {
                assert(v@[i] == old_v[i - 1] && v@[j] == old_v[j - 1]);
            }
        }
        assert forall|e: T| v@.contains(e) <==> (old_v.contains(e) || e == x) by {
            if v@.contains(e) {
                let i = choose|i: int| 0 <= i < v@.len() && v@[i] == e;
                if i < pos {
                    assert(old_v[i] == e);
                } else if i > pos {
                    assert(old_v[i - 1] == e);
                }
            }
            if old_v.contains(e) {
                let i = choose|i: int| 0 <= i < old_v.len() && old_v[i] == e;
                if i < pos {
                    assert(v@[i] == e);
                } else {
                    assert(v@[i + 1] == e);
                }
            }
            if e == x {
                assert(v@[pos as int] == e);
            }
        }
    }
}

/// Sort a vector of named values by name.  The names must be distinct.
pub fn sort_by_key<T: Named>(v: Vec<T>) -> (r: Vec<T>)
    requires
        distinct_keys(v@),
    ensures
        sorted_by_key(r@),
        same_elements(r@, v@),
{
    let mut r: Vec<T> = Vec::new();
    let mut rest = v;
    let ghost orig = rest@;
    proof {
        assert(orig =~= orig.subrange(0, orig.len() as int));
    }
    while rest.len() > 0
        invariant
            sorted_by_key(r@),
            rest@ == orig.subrange(0, rest@.len() as int),
            rest@.len() <= orig.len(),
            r@.len() + rest@.len() == orig.len(),
            distinct_keys(orig),
            forall|e: T|
                r@.contains(e) <==> exists|j: int| rest@.len() <= j < orig.len() && orig[j] == e,
        decreases rest@.len(),
    {
        let ghost k = rest@.len() - 1;
        let x = rest.pop().unwrap();
        proof {
            assert(x == orig[k]);
            assert forall|i: int| 0 <= i < r@.len() implies #[trigger] r@[i].key() != x.key() by {
                assert(r@.contains(r@[i]));
                let j = choose|j: int| k < j < orig.len() && orig[j] == r@[i];
            }
        }
        insert_by_key(&mut r, x);
        proof {
            assert(rest@ =~= orig.subrange(0, rest@.len() as int));
            assert forall|e: T|
                r@.contains(e) <==> exists|j: int| rest@.len() <= j < orig.len() && orig[j] == e by {
                if exists|j: int| rest@.len() <= j < orig.len() && orig[j] == e {
                    let j = choose|j: int| rest@.len() <= j < orig.len() && orig[j] == e;
                    if j > k {
                        assert(exists|j2: int| k + 1 <= j2 < orig.len() && orig[j2] == e);
                    }
                }
            }
        }
    }
    proof {
        assert forall|e: T| r@.contains(e) <==> orig.contains(e) by {
            if orig.contains(e) {
                let j = choose|j: int| 0 <= j < orig.len() && orig[j] == e;
                assert(exists|j2: int| 0 <= j2 < orig.len() && orig[j2] == e);
            }
        }
    }
    r
}

/// A first-order signature Σ.
///
/// Well-formed signatures (see [`Signature::wf`]) have no name shared
/// across sorts, functions and relations, declare every sort that a
/// function or relation refers to, keep each symbol list sorted by name,
/// and list in `constants` exactly the functions with an empty domain.
#[derive(Debug, Clone, PartialEq, Eq, Hash)]
pub struct Signature {
    /// The set of sorts.
    pub sorts: Vec<SortSymbol>,
    /// The set of function symbols.
    pub functions: Vec<FunctionSymbol>,
    /// The set of relation symbols.
    pub relations: Vec<RelationSymbol>,
    /// The subset of `functions` consisting of constants (empty domain).
    pub constants: Vec<FunctionSymbol>,
}

/// Errors that can arise when constructing a [`Signature`].
#[derive(Debug, Clone, PartialEq, Eq)]
pub enum SignatureError {
    /// A name appears more than once across sorts, functions, and relations.
    DuplicateName(String),
    /// A function symbol references a sort that is not declared in `sorts`.
    UnknownSortInFunction {
        /// Name of the offending function.
        function: String,
        /// Name of the missing sort.
        sort: String,
    },
    /// A relation symbol references a sort that is not declared in `sorts`.
    UnknownSortInRelation {
        /// Name of the offending relation.
        relation: String,
        /// Name of the missing sort.
        sort: String,
    },
}

/// A function symbol with an empty domain.
pub open spec fn is_constant_sym(f: FunctionSymbol) -> bool {
    f.domain@.len() == 0
}

/// The constants among a sequence of function symbols, in order.
pub open spec fn constant_filter(s: Seq<FunctionSymbol>) -> Seq<FunctionSymbol> {
    s.filter(|f: FunctionSymbol| is_constant_sym(f))
}

/// Abstract values of a sequence of function symbols.
pub open spec fn fun_views(s: Seq<FunctionSymbol>) -> Seq<FunSym> {
    s.map_values(|f: FunctionSymbol| f@)
}

/// The names of sorts, functions and relations, in that order.
pub open spec fn all_names(
    sorts: Seq<SortSymbol>,
    functions: Seq<FunctionSymbol>,
    relations: Seq<RelationSymbol>,
) -> Seq<Seq<char>> {
    keys(sorts) + keys(functions) + keys(relations)
}

/// The character sequences of a list of string slices.
pub open spec fn str_views(v: Seq<&str>) -> Seq<Seq<char>> {
    v.map_values(|x: &str| x@)
}

/// Position `k` of `s` repeats an earlier entry.
pub open spec fn repeats_earlier(s: Seq<Seq<char>>, k: int) -> bool {
    0 <= k < s.len() && exists|j: int| 0 <= j < k && s[j] == s[k]
}

/// Position `k` is the first position that repeats an earlier entry.
pub open spec fn first_repeat(s: Seq<Seq<char>>, k: int) -> bool {
    repeats_earlier(s, k) && forall|k2: int| 0 <= k2 < k ==> !repeats_earlier(s, k2)
}

/// All entries distinct.
pub open spec fn no_repeats(s: Seq<Seq<char>>) -> bool {
    forall|k: int| 0 <= k < s.len() ==> !repeats_earlier(s, k)
}

/// The sorts a function mentions: its domain, then its codomain.
pub open spec fn fn_sort_refs(f: FunctionSymbol) -> Seq<Seq<char>> {
    sort_names(f.domain@).push(f.codomain.name@)
}

/// `name` is the name of one of `sorts`.
pub open spec fn declares_sort(sorts: Seq<SortSymbol>, name: Seq<char>) -> bool {
    exists|i: int| 0 <= i < sorts.len() && sorts[i].name@ == name
}

/// Every sort in `refs` is declared.
pub open spec fn all_declared(sorts: Seq<SortSymbol>, refs: Seq<Seq<char>>) -> bool {
    forall|i: int| 0 <= i < refs.len() ==> declares_sort(sorts, #[trigger] refs[i])
}

/// Function `i` is the first function with an undeclared sort, and `s` is
/// the first undeclared sort it mentions.
pub open spec fn first_bad_function(
    sorts: Seq<SortSymbol>,
    functions: Seq<FunctionSymbol>,
    i: int,
    s: Seq<char>,
) -> bool {
    &&& 0 <= i < functions.len()
    &&& forall|i2: int| 0 <= i2 < i ==> all_declared(sorts, fn_sort_refs(#[trigger] functions[i2]))
    &&& exists|j: int|
        0 <= j < fn_sort_refs(functions[i]).len() && fn_sort_refs(functions[i])[j] == s
            && !declares_sort(sorts, s) && forall|j2: int|
            0 <= j2 < j ==> declares_sort(sorts, #[trigger] fn_sort_refs(functions[i])[j2])
}

/// Relation `i` is the first relation with an undeclared sort, and `s` is
/// the first undeclared sort in its arity.
pub open spec fn first_bad_relation(
    sorts: Seq<SortSymbol>,
    relations: Seq<RelationSymbol>,
    i: int,
    s: Seq<char>,
) -> bool {
    &&& 0 <= i < relations.len()
    &&& forall|i2: int|
        0 <= i2 < i ==> all_declared(sorts, sort_names(#[trigger] relations[i2].arity@))
    &&& exists|j: int|
        0 <= j < relations[i].arity@.len() && relations[i].arity@[j].name@ == s
            && !declares_sort(sorts, s) && forall|j2: int|
            0 <= j2 < j ==> declares_sort(sorts, #[trigger] relations[i].arity@[j2].name@)
}

/// Every function's sorts are declared.
pub open spec fn functions_declared(sorts: Seq<SortSymbol>, functions: Seq<FunctionSymbol>) -> bool {
    forall|i: int| 0 <= i < functions.len() ==> all_declared(sorts, fn_sort_refs(#[trigger] functions[i]))
}

/// Every relation's sorts are declared.
pub open spec fn relations_declared(sorts: Seq<SortSymbol>, relations: Seq<RelationSymbol>) -> bool {
    forall|i: int|
        0 <= i < relations.len() ==> all_declared(sorts, sort_names(#[trigger] relations[i].arity@))
}

impl Signature {
    /// Well-formedness: the invariants [`Signature::new`] establishes.
    pub open spec fn wf(&self) -> bool {
        &&& no_repeats(all_names(self.sorts@, self.functions@, self.relations@))
        &&& sorted_by_key(self.sorts@)
        &&& sorted_by_key(self.functions@)
        &&& sorted_by_key(self.relations@)
        &&& functions_declared(self.sorts@, self.functions@)
        &&& relations_declared(self.sorts@, self.relations@)
        &&& fun_views(self.constants@) == fun_views(constant_filter(self.functions@))
    }

    /// The sort with the smallest name, if any.
    pub open spec fn first_sort(&self) -> Option<Seq<char>> {
        if self.sorts@.len() > 0 {
            Some(self.sorts@[0].name@)
        } else {
            None
        }
    }

    /// Construct a new signature, validating its invariants.
    ///
    /// Returns [`SignatureError::DuplicateName`] for the first name (in the
    /// order sorts, functions, relations) that repeats an earlier one;
    /// otherwise [`SignatureError::UnknownSortInFunction`] for the first
    /// function mentioning an undeclared sort (domain first, then
    /// codomain); otherwise [`SignatureError::UnknownSortInRelation`] for
    /// the first such relation.
    pub fn new(
        sorts: Vec<SortSymbol>,
        functions: Vec<FunctionSymbol>,
        relations: Vec<RelationSymbol>,
    ) -> (r: Result<Self, SignatureError>)
        ensures
            r matches Err(SignatureError::DuplicateName(n)) <==> !no_repeats(
                all_names(sorts@, functions@, relations@),
            ),
            r matches Err(SignatureError::DuplicateName(n)) ==> exists|k: int|
                first_repeat(all_names(sorts@, functions@, relations@), k) && all_names(
                    sorts@,
                    functions@,
                    relations@,
                )[k] == n@,
            r matches Err(SignatureError::UnknownSortInFunction { function, sort }) <==> (
            no_repeats(all_names(sorts@, functions@, relations@)) && !functions_declared(
                sorts@,
                functions@,
            )),
            r matches Err(SignatureError::UnknownSortInFunction { function, sort }) ==> exists|
                i: int,
            |
                #![trigger functions@[i]]
                first_bad_function(sorts@, functions@, i, sort@) && functions@[i].name@
                    == function@,
            r matches Err(SignatureError::UnknownSortInRelation { relation, sort }) <==> (
            no_repeats(all_names(sorts@, functions@, relations@)) && functions_declared(
                sorts@,
                functions@,
            ) && !relations_declared(sorts@, relations@)),
            r matches Err(SignatureError::UnknownSortInRelation { relation, sort }) ==> exists|
                i: int,
            |
                #![trigger relations@[i]]
                first_bad_relation(sorts@, relations@, i, sort@) && relations@[i].name@
                    == relation@,
            r matches Ok(sig) ==> {
                &&& sig.wf()
                &&& same_elements(sig.sorts@, sorts@)
                &&& same_elements(sig.functions@, functions@)
                &&& same_elements(sig.relations@, relations@)
            },
    {
        let all = Self::collect_names(&sorts, &functions, &relations);
        match Self::find_repeat(&all) {
            Some(k) => {
                return Err(SignatureError::DuplicateName(string_of(all[k])));
            },
            None => {},
        }
        match Self::find_bad_function(&sorts, &functions) {
            Some((i, j)) => {
                let f = &functions[i];
                let s = if j < f.domain.len() {
                    &f.domain[j]
                } else {
                    &f.codomain
                };
                let function = copy_string(&f.name);
                let sort = copy_string(&s.name);
                proof {
                    assert(fn_sort_refs(functions@[i as int])[j as int] == s.name@);
                    assert(first_bad_function(sorts@, functions@, i as int, sort@) && functions@[i as int].name@ == function@);
                }
                return Err(
                    SignatureError::UnknownSortInFunction { function, sort },
                );
            },
            None => {},
        }
        match Self::find_bad_relation(&sorts, &relations) {
            Some((i, j)) => {
                let r = &relations[i];
                proof {
                    let refs = sort_names(relations@[i as int].arity@);
                    assert(refs[j as int] == r.arity@[j as int].name@);
                    assert(!all_declared(sorts@, refs));
                }
                let relation = copy_string(&r.name);
                let sort = copy_string(&r.arity[j].name);
                proof {
                    assert(first_bad_relation(sorts@, relations@, i as int, sort@) && relations@[i as int].name@ == relation@);
                }
                return Err(
                    SignatureError::UnknownSortInRelation { relation, sort },
                );
            },
            None => {},
        }
        Ok(Self::build(sorts, functions, relations))
    }

    /// The first position of `names` that repeats an earlier one.
    fn find_repeat(names: &Vec<&str>) -> (r: Option<usize>)
        ensures
            match r {
                Some(k) => first_repeat(str_views(names@), k as int) && k < names@.len(),
                None => no_repeats(str_views(names@)),
            },
    {
        let ghost v = str_views(names@);
        let total = names.len();
        let mut k: usize = 0;
        while k < total
            invariant
                v == str_views(names@),
                total == v.len(),
                k <= total,
                forall|k2: int| 0 <= k2 < k ==> !repeats_earlier(v, k2),
            decreases total - k,
        {
            let nk = names[k];
            let mut j: usize = 0;
            while j < k
                invariant
                    v == str_views(names@),
                    total == v.len(),
                    k < total,
                    j <= k,
                    nk@ == v[k as int],
                    forall|k2: int| 0 <= k2 < k ==> !repeats_earlier(v, k2),
                    forall|j2: int| 0 <= j2 < j ==> v[j2] != v[k as int],
                decreases k - j,
            {
                if str_eq(names[j], nk) {
                    proof {
                        assert(v[j as int] == v[k as int]);
                        assert(repeats_earlier(v, k as int));
                    }
                    return Some(k);
                }
                j = j + 1;
            }
            k = k + 1;
        }
        None
    }

    /// The first function with an undeclared sort, and the position of
    /// the first such sort among its domain sorts followed by its codomain.
    fn find_bad_function(sorts: &Vec<SortSymbol>, functions: &Vec<FunctionSymbol>) -> (r: Option<(usize, usize)>)
        ensures
            match r {
                Some((i, j)) => i < functions@.len() && j <= functions@[i as int].domain@.len()
                    && first_bad_function(sorts@, functions@, i as int, fn_sort_refs(functions@[i as int])[j as int]),
                None => functions_declared(sorts@, functions@),
            },
    {
        let mut i: usize = 0;
        while i < functions.len()
            invariant
                i <= functions@.len(),
                forall|i2: int| 0 <= i2 < i ==> all_declared(sorts@, fn_sort_refs(#[trigger] functions@[i2])),
            decreases functions@.len() - i,
        {
            let f = &functions[i];
            let ghost refs = fn_sort_refs(*f);
            let nd = f.domain.len();
            let mut j: usize = 0;
            while j < nd
                invariant
                    f == functions@[i as int],
                    i < functions@.len(),
                    forall|i2: int| 0 <= i2 < i ==> all_declared(sorts@, fn_sort_refs(#[trigger] functions@[i2])),
                    refs == fn_sort_refs(*f),
                    nd == f.domain@.len(),
                    refs.len() == nd + 1,
                    j <= nd,
                    forall|j2: int| 0 <= j2 < j ==> declares_sort(sorts@, #[trigger] refs[j2]),
                decreases nd - j,
            {
                if !Self::has_sort(sorts, f.domain[j].name.as_str()) {
                    proof {
                        assert(refs[j as int] == f.domain@[j as int].name@);
                        assert(fn_sort_refs(functions@[i as int])[j as int] == refs[j as int]);
                        assert(first_bad_function(sorts@, functions@, i as int, refs[j as int]));
                    }
                    return Some((i, j));
                }
                j = j + 1;
            }
            if !Self::has_sort(sorts, f.codomain.name.as_str()) {
                proof {
                    assert(refs[nd as int] == f.codomain.name@);
                    assert(fn_sort_refs(functions@[i as int])[nd as int] == refs[nd as int]);
                    assert(first_bad_function(sorts@, functions@, i as int, refs[nd as int]));
                }
                return Some((i, nd));
            }
            proof {
                assert forall|j2: int| 0 <= j2 < refs.len() implies declares_sort(sorts@, #[trigger] refs[j2]) by {
                    if j2 == nd {
                    }
                }
            }
            i = i + 1;
        }
        None
    }

    /// The first relation with an undeclared sort, and the position of
    /// the first such sort in its arity.
    fn find_bad_relation(sorts: &Vec<SortSymbol>, relations: &Vec<RelationSymbol>) -> (r: Option<(usize, usize)>)
        ensures
            match r {
                Some((i, j)) => i < relations@.len() && j < relations@[i as int].arity@.len()
                    && first_bad_relation(sorts@, relations@, i as int, relations@[i as int].arity@[j as int].name@),
                None => relations_declared(sorts@, relations@),
            },
    {
        let mut i: usize = 0;
        while i < relations.len()
            invariant
                i <= relations@.len(),
                forall|i2: int|
                    0 <= i2 < i ==> all_declared(sorts@, sort_names(#[trigger] relations@[i2].arity@)),
            decreases relations@.len() - i,
        {
            let r = &relations[i];
            let mut j: usize = 0;
            while j < r.arity.len()
                invariant
                    r == relations@[i as int],
                    i < relations@.len(),
                    forall|i2: int|
                        0 <= i2 < i ==> all_declared(sorts@, sort_names(#[trigger] relations@[i2].arity@)),
                    j <= r.arity@.len(),
                    forall|j2: int| 0 <= j2 < j ==> declares_sort(sorts@, #[trigger] r.arity@[j2].name@),
                decreases r.arity@.len() - j,
            {
                if !Self::has_sort(sorts, r.arity[j].name.as_str()) {
                    proof {
                        assert(relations@[i as int].arity@[j as int].name@ == r.arity@[j as int].name@);
                        assert(first_bad_relation(sorts@, relations@, i as int, r.arity@[j as int].name@));
                    }
                    return Some((i, j));
                }
                j = j + 1;
            }
            proof {
                assert forall|j2: int| 0 <= j2 < sort_names(r.arity@).len() implies declares_sort(
                    sorts@,
                    #[trigger] sort_names(r.arity@)[j2],
                ) by {
                    assert(declares_sort(sorts@, r.arity@[j2].name@));
                }
            }
            i = i + 1;
        }
        None
    }

    /// Assemble a signature from validated parts.
    fn build(sorts: Vec<SortSymbol>, functions: Vec<FunctionSymbol>, relations: Vec<RelationSymbol>) -> (sig: Self)
        requires
            no_repeats(all_names(sorts@, functions@, relations@)),
            functions_declared(sorts@, functions@),
            relations_declared(sorts@, relations@),
        ensures
            sig.wf(),
            same_elements(sig.sorts@, sorts@),
            same_elements(sig.functions@, functions@),
            same_elements(sig.relations@, relations@),
    {
        proof {
            Self::lemma_distinct_parts(sorts@, functions@, relations@);
        }
        let ghost s0 = sorts@;
        let ghost f0 = functions@;
        let ghost r0 = relations@;
        let sorted_sorts = sort_by_key(sorts);
        let sorted_functions = sort_by_key(functions);
        let sorted_relations = sort_by_key(relations);
        // Constants: the functions with an empty domain, in name order.
        let mut constants: Vec<FunctionSymbol> = Vec::new();
        let mut i: usize = 0;
        while i < sorted_functions.len()
            invariant
                i <= sorted_functions@.len(),
                fun_views(constants@) == fun_views(constant_filter(sorted_functions@.take(i as int))),
            decreases sorted_functions@.len() - i,
        {
            let ghost prefix = sorted_functions@.take(i as int);
            proof {
                assert(sorted_functions@.take(i + 1) =~= prefix.push(sorted_functions@[i as int]));
                prefix.lemma_filter_push(sorted_functions@[i as int], |f: FunctionSymbol| is_constant_sym(f));
            }
            if sorted_functions[i].is_constant() {
                let c = sorted_functions[i].copy();
                let ghost before = constants@;
                constants.push(c);
                proof {
                    let fl = constant_filter(prefix);
                    before.lemma_push_map_commute(|f: FunctionSymbol| f@, c);
                    fl.lemma_push_map_commute(|f: FunctionSymbol| f@, sorted_functions@[i as int]);
                }
            }
            i = i + 1;
        }
        proof {
            assert(sorted_functions@.take(sorted_functions@.len() as int) =~= sorted_functions@);
        }
        let sig = Signature {
            sorts: sorted_sorts,
            functions: sorted_functions,
            relations: sorted_relations,
            constants,
        };
        proof {
            Self::lemma_sorted_wf(s0, f0, r0, sig);
        }
        sig
    }


    /// The names of sorts, functions and relations, in that order.
    fn collect_names<'a>(
        sorts: &'a Vec<SortSymbol>,
        functions: &'a Vec<FunctionSymbol>,
        relations: &'a Vec<RelationSymbol>,
    ) -> (r: Vec<&'a str>)
        ensures
            r@.len() == all_names(sorts@, functions@, relations@).len(),
            forall|q: int| 0 <= q < r@.len() ==> #[trigger] r@[q]@ == all_names(sorts@, functions@, relations@)[q],
            str_views(r@) == all_names(sorts@, functions@, relations@),
    {
        let ghost names = all_names(sorts@, functions@, relations@);
        let ghost ls = sorts@.len() as int;
        let ghost lf = functions@.len() as int;
        let mut r: Vec<&'a str> = Vec::new();
        let mut i: usize = 0;
        while i < sorts.len()
            invariant
                names == all_names(sorts@, functions@, relations@),
                ls == sorts@.len(),
                i <= sorts@.len(),
                r@.len() == i,
                forall|q: int| 0 <= q < r@.len() ==> #[trigger] r@[q]@ == names[q],
            decreases sorts@.len() - i,
        {
            r.push(sorts[i].name.as_str());
            i = i + 1;
        }
        let mut i: usize = 0;
        while i < functions.len()
            invariant
                names == all_names(sorts@, functions@, relations@),
                ls == sorts@.len(),
                lf == functions@.len(),
                i <= functions@.len(),
                r@.len() == ls + i,
                forall|q: int| 0 <= q < r@.len() ==> #[trigger] r@[q]@ == names[q],
            decreases functions@.len() - i,
        {
            r.push(functions[i].name.as_str());
            i = i + 1;
        }
        let mut i: usize = 0;
        while i < relations.len()
            invariant
                names == all_names(sorts@, functions@, relations@),
                ls == sorts@.len(),
                lf == functions@.len(),
                i <= relations@.len(),
                r@.len() == ls + lf + i,
                forall|q: int| 0 <= q < r@.len() ==> #[trigger] r@[q]@ == names[q],
            decreases relations@.len() - i,
        {
            r.push(relations[i].name.as_str());
            i = i + 1;
        }
        assert(str_views(r@) =~= names);
        r
    }

    /// True iff `name` is the name of one of `sorts`.
    pub fn has_sort(sorts: &Vec<SortSymbol>, name: &str) -> (r: bool)
        ensures
            r == declares_sort(sorts@, name@),
    {
        let mut i: usize = 0;
        while i < sorts.len()
            invariant
                i <= sorts@.len(),
                forall|j: int| 0 <= j < i ==> sorts@[j].name@ != name@,
            decreases sorts@.len() - i,
        {
            if str_eq(sorts[i].name.as_str(), name) {
                return true;
            }
            i = i + 1;
        }
        false
    }

    proof fn lemma_distinct_parts(
        sorts: Seq<SortSymbol>,
        functions: Seq<FunctionSymbol>,
        relations: Seq<RelationSymbol>,
    )
        requires
            no_repeats(all_names(sorts, functions, relations)),
        ensures
            distinct_keys(sorts),
            distinct_keys(functions),
            distinct_keys(relations),
    {
        let names = all_names(sorts, functions, relations);
        let ls = sorts.len() as int;
        let lf = functions.len() as int;
        assert forall|i: int, j: int| 0 <= i < j < sorts.len() implies #[trigger] sorts[i].key()
            != #[trigger] sorts[j].key() by {
            assert(names[i] == sorts[i].key());
            assert(names[j] == sorts[j].key());
            assert(!repeats_earlier(names, j));
        }
        assert forall|i: int, j: int| 0 <= i < j < functions.len() implies #[trigger] functions[i].key()
            != #[trigger] functions[j].key() by {
            assert(names[ls + i] == functions[i].key());
            assert(names[ls + j] == functions[j].key());
            assert(!repeats_earlier(names, ls + j));
        }
        assert forall|i: int, j: int| 0 <= i < j < relations.len() implies #[trigger] relations[i].key()
            != #[trigger] relations[j].key() by {
            assert(names[ls + lf + i] == relations[i].key());
            assert(names[ls + lf + j] == relations[j].key());
            assert(!repeats_earlier(names, ls + lf + j));
        }
    }

    proof fn lemma_sorted_wf(
        sorts: Seq<SortSymbol>,
        functions: Seq<FunctionSymbol>,
        relations: Seq<RelationSymbol>,
        sig: Signature,
    )
        requires
            no_repeats(all_names(sorts, functions, relations)),
            functions_declared(sorts, functions),
            relations_declared(sorts, relations),
            sorted_by_key(sig.sorts@),
            sorted_by_key(sig.functions@),
            sorted_by_key(sig.relations@),
            same_elements(sig.sorts@, sorts),
            same_elements(sig.functions@, functions),
            same_elements(sig.relations@, relations),
            fun_views(sig.constants@) == fun_views(constant_filter(sig.functions@)),
        ensures
            sig.wf(),
    {
        let names = all_names(sorts, functions, relations);
        let names2 = all_names(sig.sorts@, sig.functions@, sig.relations@);
        assert forall|k: int| 0 <= k < names2.len() implies !repeats_earlier(names2, k) by {
            if repeats_earlier(names2, k) {
                let j = choose|j: int| 0 <= j < k && names2[j] == names2[k];
                let pj = Self::lemma_origin(sorts, functions, relations, sig, j);
                let pk = Self::lemma_origin(sorts, functions, relations, sig, k);
                if (k < sig.sorts@.len()) == (j < sig.sorts@.len()) && (k < sig.sorts@.len()
                    + sig.functions@.len()) == (j < sig.sorts@.len() + sig.functions@.len()) {
                    Self::lemma_same_origin_same_pos(sig, j, k);
                } else {
                    if pj < pk {
                        assert(repeats_earlier(names, pk));
                    } else {
                        assert(repeats_earlier(names, pj));
                    }
                }
            }
        }
        assert forall|i: int| 0 <= i < sig.functions@.len() implies all_declared(
            sig.sorts@,
            fn_sort_refs(#[trigger] sig.functions@[i]),
        ) by {
            assert(sig.functions@.contains(sig.functions@[i]));
            let i0 = choose|i0: int| 0 <= i0 < functions.len() && functions[i0] == sig.functions@[i];
            assert(all_declared(sorts, fn_sort_refs(functions[i0])));
            Self::lemma_declared_transfer(sorts, sig.sorts@, fn_sort_refs(functions[i0]));
        }
        assert forall|i: int| 0 <= i < sig.relations@.len() implies all_declared(
            sig.sorts@,
            sort_names(#[trigger] sig.relations@[i].arity@),
        ) by {
            assert(sig.relations@.contains(sig.relations@[i]));
            let i0 = choose|i0: int| 0 <= i0 < relations.len() && relations[i0] == sig.relations@[i];
            assert(all_declared(sorts, sort_names(relations[i0].arity@)));
            Self::lemma_declared_transfer(sorts, sig.sorts@, sort_names(relations[i0].arity@));
        }
    }

    /// The position in the unsorted name list of the entry at position `k`
    /// of the sorted one, within the same block.
    proof fn lemma_origin(
        sorts: Seq<SortSymbol>,
        functions: Seq<FunctionSymbol>,
        relations: Seq<RelationSymbol>,
        sig: Signature,
        k: int,
    ) -> (p: int)
        requires
            0 <= k < sig.sorts@.len() + sig.functions@.len() + sig.relations@.len(),
            same_elements(sig.sorts@, sorts),
            same_elements(sig.functions@, functions),
            same_elements(sig.relations@, relations),
        ensures
            0 <= p < all_names(sorts, functions, relations).len(),
            all_names(sorts, functions, relations)[p] == all_names(
                sig.sorts@,
                sig.functions@,
                sig.relations@,
            )[k],
            k < sig.sorts@.len() ==> p < sorts.len(),
            sig.sorts@.len() <= k < sig.sorts@.len() + sig.functions@.len() ==> sorts.len() <= p
                < sorts.len() + functions.len(),
            sig.sorts@.len() + sig.functions@.len() <= k ==> sorts.len() + functions.len() <= p,
    {
        let ls = sig.sorts@.len() as int;
        let lf = sig.functions@.len() as int;
        if k < ls {
            assert(sig.sorts@.contains(sig.sorts@[k]));
            let i = choose|i: int| 0 <= i < sorts.len() && sorts[i] == sig.sorts@[k];
            i
        } else if k < ls + lf {
            assert(sig.functions@.contains(sig.functions@[k - ls]));
            let i = choose|i: int| 0 <= i < functions.len() && functions[i] == sig.functions@[k - ls];
            ls + i
        } else {
            assert(sig.relations@.contains(sig.relations@[k - ls - lf]));
            let i = choose|i: int|
                0 <= i < relations.len() && relations[i] == sig.relations@[k - ls - lf];
            ls + lf + i
        }
    }

    proof fn lemma_same_origin_same_pos(sig: Signature, j: int, k: int)
        requires
            sorted_by_key(sig.sorts@),
            sorted_by_key(sig.functions@),
            sorted_by_key(sig.relations@),
            0 <= j < k < sig.sorts@.len() + sig.functions@.len() + sig.relations@.len(),
            (k < sig.sorts@.len()) == (j < sig.sorts@.len()),
            (k < sig.sorts@.len() + sig.functions@.len()) == (j < sig.sorts@.len()
                + sig.functions@.len()),
        ensures
            all_names(sig.sorts@, sig.functions@, sig.relations@)[j] != all_names(
                sig.sorts@,
                sig.functions@,
                sig.relations@,
            )[k],
    {
        let ls = sig.sorts@.len() as int;
        let lf = sig.functions@.len() as int;
        let names2 = all_names(sig.sorts@, sig.functions@, sig.relations@);
        lemma_lex_order_refl(names2[k]);
        if k < ls {
            assert(lex_lt(sig.sorts@[j].key(), sig.sorts@[k].key()));
            assert(names2[j] == sig.sorts@[j].key());
            assert(names2[k] == sig.sorts@[k].key());
        } else if k < ls + lf {
            assert(lex_lt(sig.functions@[j - ls].key(), sig.functions@[k - ls].key()));
            assert(names2[j] == sig.functions@[j - ls].key());
            assert(names2[k] == sig.functions@[k - ls].key());
        } else {
            assert(lex_lt(sig.relations@[j - ls - lf].key(), sig.relations@[k - ls - lf].key()));
            assert(names2[j] == sig.relations@[j - ls - lf].key());
            assert(names2[k] == sig.relations@[k - ls - lf].key());
        }
    }

    proof fn lemma_declared_transfer(a: Seq<SortSymbol>, b: Seq<SortSymbol>, refs: Seq<Seq<char>>)
        requires
            same_elements(b, a),
            all_declared(a, refs),
        ensures
            all_declared(b, refs),
    {
        assert forall|i: int| 0 <= i < refs.len() implies declares_sort(b, #[trigger] refs[i]) by {
            let j = choose|j: int| 0 <= j < a.len() && a[j].name@ == refs[i];
            assert(a.contains(a[j]));
            assert(b.contains(a[j]));
            let j2 = choose|j2: int| 0 <= j2 < b.len() && b[j2] == a[j];
        }
    }
}

/// Abstract values of a sequence of relation symbols.
pub open spec fn rel_views(s: Seq<RelationSymbol>) -> Seq<RelSym> {
    s.map_values(|r: RelationSymbol| r@)
}

/// Copy a list of function symbols.
pub fn copy_functions(v: &Vec<FunctionSymbol>) -> (r: Vec<FunctionSymbol>)
    ensures
        fun_views(r@) == fun_views(v@),
        r@.len() == v@.len(),
{
    let mut r: Vec<FunctionSymbol> = Vec::new();
    let mut i: usize = 0;
    while i < v.len()
        invariant
            i <= v.len(),
            r@.len() == i,
            forall|j: int| 0 <= j < i ==> #[trigger] r@[j]@ == v@[j]@,
        decreases v.len() - i,
    {
        r.push(v[i].copy());
        i = i + 1;
    }
    assert(fun_views(r@) =~= fun_views(v@));
    r
}

/// Copy a list of relation symbols.
pub fn copy_relations(v: &Vec<RelationSymbol>) -> (r: Vec<RelationSymbol>)
    ensures
        rel_views(r@) == rel_views(v@),
        r@.len() == v@.len(),
{
    let mut r: Vec<RelationSymbol> = Vec::new();
    let mut i: usize = 0;
    while i < v.len()
        invariant
            i <= v.len(),
            r@.len() == i,
            forall|j: int| 0 <= j < i ==> #[trigger] r@[j]@ == v@[j]@,
        decreases v.len() - i,
    {
        r.push(v[i].copy());
        i = i + 1;
    }
    assert(rel_views(r@) =~= rel_views(v@));
    r
}

impl Signature {
    /// Same symbols (by abstract value) in the same order.
    pub open spec fn same_as(&self, other: &Signature) -> bool {
        &&& sort_names(self.sorts@) == sort_names(other.sorts@)
        &&& fun_views(self.functions@) == fun_views(other.functions@)
        &&& rel_views(self.relations@) == rel_views(other.relations@)
        &&& fun_views(self.constants@) == fun_views(other.constants@)
    }

    /// A deep copy.
    pub fn copy(&self) -> (r: Signature)
        ensures
            r.same_as(self),
            r.sorts@.len() == self.sorts@.len(),
            r.functions@.len() == self.functions@.len(),
            r.relations@.len() == self.relations@.len(),
    {
        Signature {
            sorts: copy_sorts(&self.sorts),
            functions: copy_functions(&self.functions),
            relations: copy_relations(&self.relations),
            constants: copy_functions(&self.constants),
        }
    }
}

/// `x`, or `u32::MAX` when it does not fit in a `u32`.
pub open spec fn cap_u32(x: nat) -> nat {
    if x <= u32::MAX {
        x
    } else {
        u32::MAX as nat
    }
}

/// The number of relation interpretations over carriers of size `n`:
/// `∏ 2^(n^a)` over the arities `a` of `rels`, with each arity and each
/// tuple count `n^a` capped at `u32::MAX`.
pub open spec fn relation_space(n: nat, rels: Seq<RelationSymbol>) -> nat
    decreases rels.len(),
{
    if rels.len() == 0 {
        1
    } else {
        relation_space(n, rels.drop_last()) * pow_nat(2, cap_u32(pow_nat(n, cap_u32(rels.last().arity@.len()))))
    }
}

/// The exponent `e` as a `u32`, capped.
pub(crate) fn capped_u32(e: usize) -> (r: u32)
    ensures
        r == cap_u32(e as nat),
{
    if e <= 0xffff_ffffusize {
        e as u32
    } else {
        u32::MAX
    }
}

impl Signature {
    /// The number of distinct relation interpretations over a domain of
    /// `domain_size` elements (function interpretations not included).
    pub fn model_space_size(&self, domain_size: usize) -> (r: BigUint)
        ensures
            biguint_value(r) == relation_space(domain_size as nat, self.relations@),
    {
        let n = big_from_usize(domain_size);
        let two = big_from_usize(2);
        let mut total = big_from_usize(1);
        let mut i: usize = 0;
        while i < self.relations.len()
            invariant
                i <= self.relations@.len(),
                biguint_value(n) == domain_size,
                biguint_value(two) == 2,
                biguint_value(total) == relation_space(domain_size as nat, self.relations@.take(i as int)),
            decreases self.relations.len() - i,
        {
            let arity = capped_u32(self.relations[i].arity.len());
            let tuples = big_pow(&n, arity);
            let exponent = match big_to_u32(&tuples) {
                Some(e) => e,
                None => u32::MAX,
            };
            let factor = big_pow(&two, exponent);
            total = big_mul(&total, &factor);
            proof {
                assert(self.relations@.take(i + 1).drop_last() =~= self.relations@.take(i as int));
                assert(self.relations@.take(i + 1).last() == self.relations@[i as int]);
            }
            i = i + 1;
        }
        proof {
            assert(self.relations@.take(i as int) =~= self.relations@);
        }
        total
    }
}

} // verus!
