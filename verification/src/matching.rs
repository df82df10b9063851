//! The type of a match term: replacing the motive of an inductive type.
use vstd::prelude::*;
use crate::inductive::{abstracted, applied, chain_body};
use crate::names::{decimal, literal, suffixed, universe_root};
use crate::subst::subst;
use crate::term::{Binder, Term, TermDebugContext, Tm};

verus! {

/// The models of a list of names.
pub open spec fn names_model(v: Seq<String>) -> Seq<Seq<char>> {
    v.map_values(|s: String| s@)
}

/// The models of a list of terms.
pub open spec fn terms_model(v: Seq<Term>) -> Seq<Tm> {
    v.map_values(|t: Term| t@)
}

/// A binder of a ∀-chain: its name, its type and its debug context.
pub type ChainBinder = (Seq<char>, Tm, TermDebugContext);

/// The models of a list of binders.
pub open spec fn binders_model(v: Seq<(String, Term, TermDebugContext)>) -> Seq<ChainBinder> {
    v.map_values(|p: (String, Term, TermDebugContext)| (p.0@, p.1@, p.2))
}

/// The binders of the ∀-chain ∀x:A.∀y:B. ... Z, innermost first.
pub open spec fn binder_chain(t: Tm) -> Seq<ChainBinder>
    decreases t,
{
    match t {
        Tm::Bind(Binder::Forall, b, ty, body, db) => binder_chain(*body).push((b, *ty, db)),
        _ => Seq::empty(),
    }
}

/// The ∀-chain with end `end` and binders `ps`, innermost first.
pub open spec fn forall_chain(end: Tm, ps: Seq<ChainBinder>) -> Tm
    decreases ps.len(),
{
    if ps.len() == 0 {
        end
    } else {
        let p = ps.last();
        Tm::Bind(Binder::Forall, p.0, Box::new(p.1), Box::new(forall_chain(end, ps.drop_last())), p.2)
    }
}

/// A ∀-chain is rebuilt from its end and its binders.
pub proof fn lemma_forall_chain(t: Tm)
    ensures
        forall_chain(chain_body(t, Binder::Forall), binder_chain(t)) == t,
    decreases t,
{
    match t {
        Tm::Bind(Binder::Forall, b, ty, body, db) => {
            lemma_forall_chain(*body);
            assert(binder_chain(t).drop_last() =~= binder_chain(*body));
        },
        _ => {},
    }
}

/// A chain of binders split up: their names and types, innermost first, and its end.
pub type Chain = (Seq<Seq<char>>, Seq<Tm>, Tm);

/// Whether `cand` may rename binder number `n` of chain `c`: it is free neither
/// in the end nor in the types of the binders inside binder `n`, differs from
/// their names, and is none of `avoid`.
pub open spec fn fits_chain(cand: Seq<char>, c: Chain, n: int, avoid: Seq<Seq<char>>) -> bool {
    &&& !c.2.free_in(cand)
    &&& forall|m: int|
        #![trigger c.0[m]]
        #![trigger c.1[m]]
        0 <= m < n ==> cand != c.0[m] && !c.1[m].free_in(cand)
    &&& !avoid.contains(cand)
}

/// The first name that fits chain `c` for binder number `n`: the binder's name
/// followed by the least decimal suffix from `k` on (the suffix `u64::MAX`
/// when no smaller one fits).
pub open spec fn chain_fresh_from(c: Chain, n: int, avoid: Seq<Seq<char>>, k: u64) -> Seq<char>
    decreases u64::MAX - k,
{
    let cand = c.0[n] + decimal(k as nat);
    if k == u64::MAX || fits_chain(cand, c, n, avoid) {
        cand
    } else {
        chain_fresh_from(c, n, avoid, (k + 1) as u64)
    }
}

/// The types of a chain after renaming binder number `n` from `old` to `new`:
/// the types of the binders inside it are substituted.
pub open spec fn renamed_types(types: Seq<Tm>, n: int, old: Seq<char>, new: Seq<char>) -> Seq<Tm> {
    Seq::new(
        types.len(),
        |m: int|
            if m < n {
                subst(types[m], old, Tm::Var(new, TermDebugContext::Ignore))
            } else {
                types[m]
            },
    )
}

/// Chain `c` with binder number `n` renamed to its first fitting name.
pub open spec fn rename_binder(c: Chain, n: int, avoid: Seq<Seq<char>>) -> Chain {
    let new = chain_fresh_from(c, n, avoid, 0);
    let old = c.0[n];
    (
        c.0.update(n, new),
        renamed_types(c.1, n, old, new),
        subst(c.2, old, Tm::Var(new, TermDebugContext::Ignore)),
    )
}

/// Chain `c` with binders `0..n` renamed in turn, innermost first.
pub open spec fn renamed_chain(c: Chain, avoid: Seq<Seq<char>>, n: nat) -> Chain
    decreases n,
{
    if n == 0 {
        c
    } else {
        rename_binder(renamed_chain(c, avoid, (n - 1) as nat), n - 1, avoid)
    }
}

/// The ∀-chain `t` split up into names, types and end.
pub open spec fn chain_of(t: Tm) -> Chain {
    (
        binder_chain(t).map_values(|p: ChainBinder| p.0),
        binder_chain(t).map_values(|p: ChainBinder| p.1),
        chain_body(t, Binder::Forall),
    )
}

/// A constructor type ∀y1:Y1. ... T with all its binders renamed apart.
pub open spec fn renamed_ctor(t: Tm, avoid: Seq<Seq<char>>) -> Chain {
    renamed_chain(chain_of(t), avoid, binder_chain(t).len())
}

/// The ∀-chain of the renamed chain `c`, keeping the debug contexts of the
/// binders of `t`.
pub open spec fn rebuilt_ctor(t: Tm, c: Chain) -> Tm {
    forall_chain(
        c.2,
        Seq::new(c.0.len(), |i: int| (c.0[i], c.1[i], binder_chain(t)[i].2)),
    )
}

/// The arguments y1 y2 ... (outermost first) of the names given innermost first.
pub open spec fn instance_args(cnames: Seq<Seq<char>>) -> Seq<Tm> {
    Seq::new(
        cnames.len(),
        |i: int| Tm::Var(cnames[cnames.len() - 1 - i], TermDebugContext::Ignore),
    )
}

/// The inductive instance of constructor number `n`:
/// ℺I.λg:Type.λT:g.λc1:C1.λc2:C2. ... cn y1 y2 ...
pub open spec fn instance(
    ind: Tm,
    g: Seq<char>,
    arb: Seq<char>,
    names: Seq<Seq<char>>,
    types: Seq<Tm>,
    n: int,
    cnames: Seq<Seq<char>>,
) -> Tm {
    let call = applied(Tm::Var(names[n], TermDebugContext::Ignore), instance_args(cnames));
    let params = Seq::new(names.len(), |m: int| (names[m], types[m]));
    Tm::Cons(
        Box::new(ind),
        Box::new(
            Tm::Bind(
                Binder::Lambda,
                g,
                Box::new(Tm::Var(universe_root(), TermDebugContext::Ignore)),
                Box::new(
                    Tm::Bind(
                        Binder::Lambda,
                        arb,
                        Box::new(Tm::Var(g, TermDebugContext::Ignore)),
                        Box::new(abstracted(call, params)),
                        TermDebugContext::Ignore,
                    ),
                ),
                TermDebugContext::Ignore,
            ),
        ),
        TermDebugContext::Ignore,
    )
}

/// The constructor types, renamed apart, and their instances, after handling
/// constructors `0..n`.
pub open spec fn instances_upto(
    names: Seq<Seq<char>>,
    types: Seq<Tm>,
    ind: Tm,
    g: Seq<char>,
    arb: Seq<char>,
    n: nat,
) -> (Seq<Tm>, Seq<Tm>)
    decreases n,
{
    if n == 0 {
        (types, Seq::empty())
    } else {
        let prev = instances_upto(names, types, ind, g, arb, (n - 1) as nat);
        let k = n - 1;
        let c = renamed_ctor(prev.0[k], names);
        let ts = prev.0.update(k, rebuilt_ctor(prev.0[k], c));
        (ts, prev.1.push(instance(ind, g, arb, names, ts, k, c.0)))
    }
}

/// A constructor type ∀y1:Y1. ... T with `arb` replaced by `v` at its end.
pub open spec fn retargeted(ctor: Tm, arb: Seq<char>, v: Tm) -> Tm {
    forall_chain(subst(chain_body(ctor, Binder::Forall), arb, v), binder_chain(ctor))
}

/// The type of a match term `C D B`, from the type ∀T:R.∀c1:C1. ... Z of `C D`
/// (the chain `t`), `C` being the identifier `s` whose inductive type `ind`
/// starts with ∀g:Type: the binder T is dropped and Z becomes Z[T:=B]; each
/// constructor type Ci = ∀y1:Y1. ... T, its binders renamed apart, becomes
/// ∀y1:Y1. ... B' with B' being B in which `s` is replaced by the inductive
/// instance of constructor i. The constructors are renamed apart from each
/// other first.
pub open spec fn match_replaced(t: Tm, s: Seq<char>, g: Seq<char>, p: Tm, ind: Tm) -> Tm {
    let ps = binder_chain(t);
    let count = ps.len() - 1;
    let arb = ps[count].0;
    let c0 = (
        Seq::new(count as nat, |i: int| ps[i].0),
        Seq::new(count as nat, |i: int| ps[i].1),
        chain_body(t, Binder::Forall),
    );
    let c1 = renamed_chain(c0, Seq::empty(), count as nat);
    let built = instances_upto(c1.0, c1.1, ind, g, arb, count as nat);
    let new_ps = Seq::new(
        count as nat,
        |n: int| (ps[n].0, retargeted(built.0[n], arb, subst(p, s, built.1[n])), ps[n].2),
    );
    forall_chain(subst(chain_body(t, Binder::Forall), arb, p), new_ps)
}

impl Term {
    /// The ∀-chain ∀x:A.∀y:B. ... Z split into Z and its binders, innermost
    /// first, each with its name, type and debug context.
    pub fn forall_parts(&self) -> (r: (Term, Vec<(String, Term, TermDebugContext)>))
        ensures
            r.0@ == chain_body(self@, Binder::Forall),
            binders_model(r.1@) == binder_chain(self@),
        decreases self,
    {
        match self {
            Term::Forall { binding_identifier, binding_type, value_term, debug_context } => {
                let (body, mut params) = value_term.forall_parts();
                params.push(
                    (binding_identifier.clone(), binding_type.duplicate(), debug_context.duplicate()),
                );
                (body, params)
            },
            _ => {
                let params: Vec<(String, Term, TermDebugContext)> = Vec::new();
                (self.duplicate(), params)
            },
        }
    }

    /// The ∀-chain with end `end` and binders `params`, innermost first.
    pub fn rebuild_forall(end: Term, params: &Vec<(String, Term, TermDebugContext)>) -> (r: Term)
        ensures
            r@ == forall_chain(end@, binders_model(params@)),
    {
        let ghost e = end@;
        let mut r = end;
        let n = params.len();
        let mut i: usize = 0;
        while i < n
            invariant
                n == params@.len(),
                i <= n,
                r@ == forall_chain(e, binders_model(params@.take(i as int))),
            decreases n - i,
        {
            let (b, ty, db) = &params[i];
            r = Term::Forall {
                binding_identifier: b.clone(),
                binding_type: Box::new(ty.duplicate()),
                value_term: Box::new(r),
                debug_context: db.duplicate(),
            };
            assert(binders_model(params@.take(i + 1)).drop_last() =~= binders_model(
                params@.take(i as int),
            ));
            i = i + 1;
        }
        assert(params@.take(n as int) =~= params@);
        r
    }

    /// Whether `candidate` fits chain (`names`, `types`, `end`) for binder
    /// number `n`, avoiding `avoid`, as `fits_chain` says.
    fn fits_chain_exec(
        candidate: &String,
        names: &Vec<String>,
        types: &Vec<Term>,
        n: usize,
        end: &Term,
        avoid: &Vec<String>,
    ) -> (b: bool)
        requires
            n <= names@.len(),
            names@.len() == types@.len(),
        ensures
            b == fits_chain(
                candidate@,
                (names_model(names@), terms_model(types@), end@),
                n as int,
                names_model(avoid@),
            ),
    {
        let ghost c = (names_model(names@), terms_model(types@), end@);
        let ghost av = names_model(avoid@);
        if end.contains(candidate) {
            return false;
        }
        let mut m: usize = 0;
        while m < n
            invariant
                n <= names@.len(),
                names@.len() == types@.len(),
                c == (names_model(names@), terms_model(types@), end@),
                !c.2.free_in(candidate@),
                m <= n,
                forall|j: int|
                    #![trigger c.0[j]]
                    #![trigger c.1[j]]
                    0 <= j < m ==> candidate@ != c.0[j] && !c.1[j].free_in(candidate@),
            decreases n - m,
        {
            let same = *candidate == names[m];
            let occurs = types[m].contains(candidate);
            if same || occurs {
                assert(!(candidate@ != c.0[m as int] && !c.1[m as int].free_in(candidate@)));
                return false;
            }
            m = m + 1;
        }
        let mut a: usize = 0;
        while a < avoid.len()
            invariant
                av == names_model(avoid@),
                a <= avoid@.len(),
                forall|j: int| 0 <= j < a ==> av[j] != candidate@,
            decreases avoid@.len() - a,
        {
            assert(av[a as int] == avoid@[a as int]@);
            if *candidate == avoid[a] {
                return false;
            }
            a = a + 1;
        }
        true
    }

    /// The first name fitting chain (`names`, `types`, `end`) for binder
    /// number `n`, avoiding `avoid`, as `chain_fresh_from` says.
    fn chain_fresh_name(
        names: &Vec<String>,
        types: &Vec<Term>,
        n: usize,
        end: &Term,
        avoid: &Vec<String>,
    ) -> (r: String)
        requires
            n < names@.len(),
            names@.len() == types@.len(),
        ensures
            r@ == chain_fresh_from(
                (names_model(names@), terms_model(types@), end@),
                n as int,
                names_model(avoid@),
                0,
            ),
    {
        let ghost c = (names_model(names@), terms_model(types@), end@);
        let ghost av = names_model(avoid@);
        let mut suffix: u64 = 0;
        loop
            invariant
                n < names@.len(),
                names@.len() == types@.len(),
                c == (names_model(names@), terms_model(types@), end@),
                av == names_model(avoid@),
                chain_fresh_from(c, n as int, av, suffix) == chain_fresh_from(c, n as int, av, 0),
            decreases u64::MAX - suffix,
        {
            let candidate = suffixed(&names[n], suffix);
            if suffix == u64::MAX {
                return candidate;
            }
            if Self::fits_chain_exec(&candidate, names, types, n, end, avoid) {
                return candidate;
            }
            suffix = suffix + 1;
        }
    }

    /// Renames binder number `n` of chain (`names`, `types`, `end`) to
    /// `new_name`, in the types of the binders inside it and in the end.
    fn rename_chain_binder(
        names: &mut Vec<String>,
        types: &mut Vec<Term>,
        end: &mut Term,
        n: usize,
        new_name: String,
    )
        requires
            n < old(names)@.len(),
            old(names)@.len() == old(types)@.len(),
        ensures
            final(names)@.len() == old(names)@.len(),
            final(types)@.len() == old(types)@.len(),
            names_model(final(names)@) == names_model(old(names)@).update(n as int, new_name@),
            terms_model(final(types)@) == renamed_types(
                terms_model(old(types)@),
                n as int,
                names_model(old(names)@)[n as int],
                new_name@,
            ),
            final(end)@ == subst(
                old(end)@,
                names_model(old(names)@)[n as int],
                Tm::Var(new_name@, TermDebugContext::Ignore),
            ),
    {
        let ghost orig = terms_model(types@);
        let old_name = names[n].clone();
        let w = Term::Identifier(new_name.clone(), TermDebugContext::Ignore);
        let mut m: usize = 0;
        while m < n
            invariant
                n < names@.len(),
                names@ == old(names)@,
                types@.len() == orig.len(),
                names@.len() == orig.len(),
                m <= n,
                forall|j: int|
                    0 <= j < orig.len() ==> #[trigger] types@[j]@ == if j < m {
                        subst(orig[j], old_name@, w@)
                    } else {
                        orig[j]
                    },
            decreases n - m,
        {
            let t = types[m].substituted(&old_name, &w);
            types.set(m, t);
            m = m + 1;
        }
        end.replace(&old_name, &w);
        names.set(n, new_name);
    }

    /// Renames every binder of chain (`names`, `types`, `end`) in turn,
    /// innermost first, apart from the others and from `avoid`.
    fn rename_chain(
        names: &mut Vec<String>,
        types: &mut Vec<Term>,
        end: &mut Term,
        avoid: &Vec<String>,
    )
        requires
            old(names)@.len() == old(types)@.len(),
        ensures
            final(names)@.len() == old(names)@.len(),
            final(types)@.len() == old(types)@.len(),
            (names_model(final(names)@), terms_model(final(types)@), final(end)@) == renamed_chain(
                (names_model(old(names)@), terms_model(old(types)@), old(end)@),
                names_model(avoid@),
                old(names)@.len() as nat,
            ),
    {
        let ghost c0 = (names_model(names@), terms_model(types@), end@);
        let count = names.len();
        let mut n: usize = 0;
        while n < count
            invariant
                count == names@.len(),
                names@.len() == types@.len(),
                n <= count,
                (names_model(names@), terms_model(types@), end@) == renamed_chain(
                    c0,
                    names_model(avoid@),
                    n as nat,
                ),
            decreases count - n,
        {
            let new_name = Self::chain_fresh_name(names, types, n, end, avoid);
            Self::rename_chain_binder(names, types, end, n, new_name);
            n = n + 1;
        }
    }
}

impl Term {
    /// The names and types of the first `count` binders of a list.
    fn split_binders(params: &Vec<(String, Term, TermDebugContext)>, count: usize) -> (r: (
        Vec<String>,
        Vec<Term>,
    ))
        requires
            count <= params@.len(),
        ensures
            r.0@.len() == count,
            r.1@.len() == count,
            names_model(r.0@) == Seq::new(count as nat, |i: int| binders_model(params@)[i].0),
            terms_model(r.1@) == Seq::new(count as nat, |i: int| binders_model(params@)[i].1),
    {
        let mut names: Vec<String> = Vec::new();
        let mut types: Vec<Term> = Vec::new();
        let mut i: usize = 0;
        while i < count
            invariant
                count <= params@.len(),
                i <= count,
                names@.len() == i,
                types@.len() == i,
                forall|j: int| 0 <= j < i ==> #[trigger] names@[j]@ == binders_model(params@)[j].0,
                forall|j: int| 0 <= j < i ==> #[trigger] types@[j]@ == binders_model(params@)[j].1,
            decreases count - i,
        {
            names.push(params[i].0.clone());
            types.push(params[i].1.duplicate());
            i = i + 1;
        }
        (names, types)
    }

    /// A constructor type with its binders renamed apart, as `rebuilt_ctor`
    /// and `renamed_ctor` say, and the new binder names.
    fn retyped_ctor(ctor: &Term, avoid: &Vec<String>) -> (r: (Term, Vec<String>))
        ensures
            r.0@ == rebuilt_ctor(ctor@, renamed_ctor(ctor@, names_model(avoid@))),
            names_model(r.1@) == renamed_ctor(ctor@, names_model(avoid@)).0,
    {
        let (mut cend, cparams) = ctor.forall_parts();
        let len = cparams.len();
        let (mut cnames, mut ctypes) = Self::split_binders(&cparams, len);
        assert((names_model(cnames@), terms_model(ctypes@), cend@) == chain_of(ctor@));
        Self::rename_chain(&mut cnames, &mut ctypes, &mut cend, avoid);
        let ghost c = renamed_ctor(ctor@, names_model(avoid@));
        let mut renamed: Vec<(String, Term, TermDebugContext)> = Vec::new();
        let mut i: usize = 0;
        while i < len
            invariant
                len == cparams@.len(),
                binders_model(cparams@) == binder_chain(ctor@),
                names_model(cnames@) == c.0,
                terms_model(ctypes@) == c.1,
                cnames@.len() == len,
                ctypes@.len() == len,
                i <= len,
                renamed@.len() == i,
                forall|j: int|
                    0 <= j < i ==> (#[trigger] renamed@[j]).0@ == c.0[j] && renamed@[j].1@ == c.1[j]
                        && renamed@[j].2 == binder_chain(ctor@)[j].2,
            decreases len - i,
        {
            renamed.push((cnames[i].clone(), ctypes[i].duplicate(), cparams[i].2.duplicate()));
            i = i + 1;
        }
        assert(binders_model(renamed@) =~= Seq::new(
            len as nat,
            |j: int| (c.0[j], c.1[j], binder_chain(ctor@)[j].2),
        ));
        let t = Self::rebuild_forall(cend, &renamed);
        (t, cnames)
    }

    /// The inductive instance of constructor number `n`, as `instance` says.
    fn make_instance(
        ind: &Term,
        g: &String,
        arb: &String,
        names: &Vec<String>,
        types: &Vec<Term>,
        n: usize,
        cnames: &Vec<String>,
    ) -> (r: Term)
        requires
            n < names@.len(),
            names@.len() == types@.len(),
        ensures
            r@ == instance(
                ind@,
                g@,
                arb@,
                names_model(names@),
                terms_model(types@),
                n as int,
                names_model(cnames@),
            ),
    {
        proof {
            reveal_strlit("Type");
            assert("Type"@ =~= universe_root());
        }
        let ghost cn = names_model(cnames@);
        let mut args: Vec<Term> = Vec::new();
        let len = cnames.len();
        let mut c: usize = 0;
        while c < len
            invariant
                len == cnames@.len(),
                cn == names_model(cnames@),
                c <= len,
                args@.len() == c,
                forall|j: int|
                    0 <= j < c ==> #[trigger] args@[j]@ == Tm::Var(
                        cn[len - 1 - j],
                        TermDebugContext::Ignore,
                    ),
            decreases len - c,
        {
            args.push(Term::Identifier(cnames[len - 1 - c].clone(), TermDebugContext::Ignore));
            c = c + 1;
        }
        assert(args@.map_values(|a: Term| a@) =~= instance_args(cn));
        let head = Term::Identifier(names[n].clone(), TermDebugContext::Ignore);
        let call = Self::build_application(&head, args.as_slice());
        let mut params: Vec<(String, Term)> = Vec::new();
        let count = names.len();
        let mut m: usize = 0;
        while m < count
            invariant
                count == names@.len(),
                count == types@.len(),
                m <= count,
                params@.len() == m,
                forall|k: int|
                    0 <= k < m ==> (#[trigger] params@[k]).0@ == names_model(names@)[k]
                        && params@[k].1@ == terms_model(types@)[k],
            decreases count - m,
        {
            params.push((names[m].clone(), types[m].duplicate()));
            m = m + 1;
        }
        assert(params@.map_values(|p: (String, Term)| (p.0@, p.1@)) =~= Seq::new(
            count as nat,
            |k: int| (names_model(names@)[k], terms_model(types@)[k]),
        ));
        let body = Self::build_lambda(&call, params.as_slice());
        let g_var = Term::Identifier(g.clone(), TermDebugContext::Ignore);
        assert(g_var@ == Tm::Var(g@, TermDebugContext::Ignore));
        let inner = Term::Lambda {
            binding_identifier: arb.clone(),
            binding_type: Box::new(g_var),
            value_term: Box::new(body),
            debug_context: TermDebugContext::Ignore,
        };
        let ghost inner_m = inner@;
        let universe = Term::Identifier(literal("Type"), TermDebugContext::Ignore);
        assert(universe@ == Tm::Var(universe_root(), TermDebugContext::Ignore));
        let outer = Term::Lambda {
            binding_identifier: g.clone(),
            binding_type: Box::new(universe),
            value_term: Box::new(inner),
            debug_context: TermDebugContext::Ignore,
        };
        assert(outer@ == Tm::Bind(
            Binder::Lambda,
            g@,
            Box::new(Tm::Var(universe_root(), TermDebugContext::Ignore)),
            Box::new(inner_m),
            TermDebugContext::Ignore,
        ));
        Term::Constructor {
            type_term: Box::new(ind.duplicate()),
            value_term: Box::new(outer),
            debug_context: TermDebugContext::Ignore,
        }
    }

    /// A constructor type with `arb` replaced by `v` at its end, as
    /// `retargeted` says.
    fn retarget(ctor: &Term, arb: &String, v: &Term) -> (r: Term)
        ensures
            r@ == retargeted(ctor@, arb@, v@),
    {
        let (mut end, params) = ctor.forall_parts();
        end.replace(arb, v);
        Self::rebuild_forall(end, &params)
    }

    /// Replaces the motive of a match term: `self` is the type ∀T:R.∀c1:C1. ... Z
    /// of `C D` in a match term `C D B`, where C is the identifier
    /// `identifier` with inductive type `inductive_type` starting with
    /// ∀`generic_identifier`:Type; the result is given by `match_replaced`.
    pub(crate) fn match_replace(
        &mut self,
        identifier: &String,
        generic_identifier: &String,
        parameter_term: &Term,
        inductive_type: &Term,
    )
        requires
            old(self)@ matches Tm::Bind(Binder::Forall, _, _, _, _),
        ensures
            final(self)@ == match_replaced(
                old(self)@,
                identifier@,
                generic_identifier@,
                parameter_term@,
                inductive_type@,
            ),
    {
        let ghost t = self@;
        let ghost ps = binder_chain(t);
        let (template_end, params) = self.forall_parts();
        let self_end = template_end.duplicate();
        let count = params.len() - 1;
        let arbitrary = params[count].0.clone();
        // the template: the constructors, renamed apart
        let (mut names, mut types) = Self::split_binders(&params, count);
        let mut end = template_end;
        let no_names: Vec<String> = Vec::new();
        assert(names_model(no_names@) =~= Seq::<Seq<char>>::empty());
        Self::rename_chain(&mut names, &mut types, &mut end, &no_names);
        let ghost c1 = renamed_chain(
            (
                Seq::new(count as nat, |i: int| ps[i].0),
                Seq::new(count as nat, |i: int| ps[i].1),
                chain_body(t, Binder::Forall),
            ),
            Seq::empty(),
            count as nat,
        );
        // the inductive instances of the constructors
        let mut instances: Vec<Term> = Vec::new();
        let mut n: usize = 0;
        while n < count
            invariant
                names_model(names@) == c1.0,
                names@.len() == count,
                types@.len() == count,
                instances@.len() == n,
                n <= count,
                (terms_model(types@), terms_model(instances@)) == instances_upto(
                    c1.0,
                    c1.1,
                    inductive_type@,
                    generic_identifier@,
                    arbitrary@,
                    n as nat,
                ),
            decreases count - n,
        {
            let ghost before = terms_model(types@);
            let (ctor_type, cnames) = Self::retyped_ctor(&types[n], &names);
            types.set(n, ctor_type);
            assert(terms_model(types@) =~= before.update(n as int, ctor_type@));
            let inst = Self::make_instance(
                inductive_type,
                generic_identifier,
                &arbitrary,
                &names,
                &types,
                n,
                &cnames,
            );
            instances.push(inst);
            n = n + 1;
        }
        // the constructors of the result, with the motive replaced
        let ghost built = instances_upto(
            c1.0,
            c1.1,
            inductive_type@,
            generic_identifier@,
            arbitrary@,
            count as nat,
        );
        let mut new_params: Vec<(String, Term, TermDebugContext)> = Vec::new();
        let mut n: usize = 0;
        while n < count
            invariant
                count + 1 == params@.len(),
                binders_model(params@) == ps,
                arbitrary@ == ps[count as int].0,
                terms_model(types@) == built.0,
                terms_model(instances@) == built.1,
                types@.len() == count,
                instances@.len() == count,
                n <= count,
                new_params@.len() == n,
                forall|k: int|
                    0 <= k < n ==> (#[trigger] new_params@[k]).0@ == ps[k].0 && new_params@[k].1@
                        == retargeted(
                        built.0[k],
                        arbitrary@,
                        subst(parameter_term@, identifier@, built.1[k]),
                    ) && new_params@[k].2 == ps[k].2,
            decreases count - n,
        {
            let mut replaced = parameter_term.duplicate();
            replaced.replace(identifier, &instances[n]);
            let modified = Self::retarget(&types[n], &arbitrary, &replaced);
            new_params.push((params[n].0.clone(), modified, params[n].2.duplicate()));
            n = n + 1;
        }
        assert(binders_model(new_params@) =~= Seq::new(
            count as nat,
            |k: int|
                (
                    ps[k].0,
                    retargeted(built.0[k], arbitrary@, subst(parameter_term@, identifier@, built.1[k])),
                    ps[k].2,
                ),
        ));
        let mut result_end = self_end;
        result_end.replace(&arbitrary, parameter_term);
        *self = Self::rebuild_forall(result_end, &new_params);
    }
}

} // verus!
