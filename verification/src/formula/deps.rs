//! What a formula depends on: the amounts it fetches, the cells of its own report it
//! reads, and the cells of other reports it references.
use vstd::prelude::*;
use crate::formula::ast::{Node, NodeV, node_view, nodes_view};
use crate::formula::cells::{expand_range, expand_range_spec, range_ok};
use crate::formula::eval::{
    Scope, ScopeV, BalanceKey, KeyV, fetch_key_spec, ref_addr_spec, try_fetch_key, try_ref_addr, range_checkable,
    lemma_nodes_view,
};
use crate::text::{str_eq, copy_str};

verus! {

/// A referenced cell: (report, version, organisation, period, cell).
pub type RefV = (Seq<char>, Seq<char>, Seq<char>, Seq<char>, Seq<char>);

/// Dependencies as plain values: fetch keys, cells of this report, referenced cells.
pub type DepsV = (Seq<KeyV>, Seq<Seq<char>>, Seq<RefV>);

/// The dependencies of a formula.
pub struct Deps {
    pub fetches: Vec<BalanceKey>,
    pub cells: Vec<String>,
    pub refs: Vec<(String, String, String, String, String)>,
}

pub open spec fn keys_view(v: Seq<BalanceKey>) -> Seq<KeyV> {
    v.map_values(|k: BalanceKey| k@)
}

pub open spec fn refs_view(v: Seq<(String, String, String, String, String)>) -> Seq<RefV> {
    v.map_values(|r: (String, String, String, String, String)| (r.0@, r.1@, r.2@, r.3@, r.4@))
}

impl View for Deps {
    type V = DepsV;

    open spec fn view(&self) -> DepsV {
        (keys_view(self.fetches@), self.cells@.map_values(|s: String| s@), refs_view(self.refs@))
    }
}

pub open spec fn no_deps() -> DepsV {
    (Seq::empty(), Seq::empty(), Seq::empty())
}

/// The dependencies of `a`, then those of `b`.
pub open spec fn join(a: DepsV, b: DepsV) -> DepsV {
    (a.0 + b.0, a.1 + b.1, a.2 + b.2)
}

/// The functions that fetch an amount.
pub open spec fn is_fetch_name(n: Seq<char>) -> bool {
    n == "QM"@ || n == "QC"@ || n == "FS"@ || n == "JE"@ || n == "CG"@ || n == "IND"@ || n == "ELIM"@ || n == "CF"@
        || n == "EQC"@
}

/// What a call itself depends on: the amount a fetch function fetches, the cell
/// `REF` references (None when its arguments cannot be evaluated).
pub open spec fn call_own_deps(name: Seq<char>, args: Seq<NodeV>, sc: ScopeV) -> Option<DepsV> {
    if is_fetch_name(name) {
        match fetch_key_spec(name, args, sc) {
            Some(Some(k)) => Some((seq![k], Seq::empty(), Seq::empty())),
            Some(None) => Some(no_deps()),
            None => None,
        }
    } else if name == "REF"@ {
        match ref_addr_spec(args, sc) {
            Some(Some(a)) => Some((Seq::empty(), Seq::empty(), seq![a])),
            Some(None) => Some(no_deps()),
            None => None,
        }
    } else {
        Some(no_deps())
    }
}

/// The dependencies of a formula, in the order they occur (None when an argument
/// that derives a fetch key or a reference cannot be evaluated, or a range cannot be
/// expanded).
pub open spec fn deps_spec(n: NodeV, sc: ScopeV) -> Option<DepsV>
    decreases n, 1int,
{
    match n {
        NodeV::Cell(c) => Some((Seq::empty(), seq![c], Seq::empty())),
        NodeV::Range(a, b) => if range_ok(a) && range_ok(b) {
            Some((Seq::empty(), expand_range_spec(a, b), Seq::empty()))
        } else {
            None
        },
        NodeV::Unary(_, x) => deps_spec(*x, sc),
        NodeV::Binary(_, l, r) => match (deps_spec(*l, sc), deps_spec(*r, sc)) {
            (Some(a), Some(b)) => Some(join(a, b)),
            _ => None,
        },
        NodeV::Call(name, args) => match (call_own_deps(name, args, sc), deps_args(args, sc)) {
            (Some(a), Some(b)) => Some(join(a, b)),
            _ => None,
        },
        _ => Some(no_deps()),
    }
}

/// The dependencies of the arguments, in order.
pub open spec fn deps_args(args: Seq<NodeV>, sc: ScopeV) -> Option<DepsV>
    decreases args, 0int,
{
    if args.len() == 0 {
        Some(no_deps())
    } else {
        match (deps_args(args.drop_last(), sc), deps_spec(args.last(), sc)) {
            (Some(a), Some(b)) => Some(join(a, b)),
            _ => None,
        }
    }
}

fn empty_deps() -> (r: Deps)
    ensures
        r@ == no_deps(),
{
    let r = Deps { fetches: Vec::new(), cells: Vec::new(), refs: Vec::new() };
    assert(r@.0 =~= Seq::<KeyV>::empty());
    assert(r@.1 =~= Seq::<Seq<char>>::empty());
    assert(r@.2 =~= Seq::<RefV>::empty());
    r
}

fn join_into(a: &mut Deps, b: Deps)
    ensures
        final(a)@ == join(old(a)@, b@),
{
    let ghost a0 = a@;
    let ghost b0 = b@;
    let mut b = b;
    a.fetches.append(&mut b.fetches);
    a.cells.append(&mut b.cells);
    a.refs.append(&mut b.refs);
    proof {
        assert(a@.0 =~= a0.0 + b0.0);
        assert(a@.1 =~= a0.1 + b0.1);
        assert(a@.2 =~= a0.2 + b0.2);
    }
}

fn is_fetch_fn(name: &str) -> (r: bool)
    ensures
        r == is_fetch_name(name@),
{
    str_eq(name, "QM") || str_eq(name, "QC") || str_eq(name, "FS") || str_eq(name, "JE") || str_eq(name, "CG")
        || str_eq(name, "IND") || str_eq(name, "ELIM") || str_eq(name, "CF") || str_eq(name, "EQC")
}

/// The dependencies of a formula (see `deps_spec`).
pub fn try_deps(node: &Node, sc: &Scope) -> (r: Option<Deps>)
    ensures
        match deps_spec(node_view(*node), sc@) {
            Some(d) => r matches Some(x) && x@ == d,
            None => r is None,
        },
    decreases node, 1int,
{
    match node {
        Node::Cell(c) => {
            let mut d = empty_deps();
            d.cells.push(copy_str(c.as_str()));
            proof {
                assert(d@.1 =~= seq![c@]);
            }
            Some(d)
        },
        Node::Range(a, b) => {
            if range_checkable(a.as_str()) && range_checkable(b.as_str()) {
                let mut d = empty_deps();
                d.cells = expand_range(a.as_str(), b.as_str());
                Some(d)
            } else {
                None
            }
        },
        Node::Unary(_, x) => try_deps(x, sc),
        Node::Binary(_, l, r) => {
            let mut a = try_deps(l, sc)?;
            let b = try_deps(r, sc)?;
            join_into(&mut a, b);
            Some(a)
        },
        Node::Call(name, args) => {
            let mut own = empty_deps();
            proof {
                lemma_nodes_view(args@);
            }
            if is_fetch_fn(name.as_str()) {
                match try_fetch_key(name.as_str(), args, sc) {
                    Some(Some(k)) => {
                        own.fetches.push(k);
                        proof {
                            assert(own@.0 =~= seq![k@]);
                        }
                    },
                    Some(None) => {},
                    None => {
                        return None;
                    },
                }
            } else if str_eq(name.as_str(), "REF") {
                match try_ref_addr(args, sc) {
                    Some(Some(x)) => {
                        own.refs.push(x);
                        proof {
                            assert(own@.2 =~= seq![(x.0@, x.1@, x.2@, x.3@, x.4@)]);
                        }
                    },
                    Some(None) => {},
                    None => {
                        return None;
                    },
                }
            }
            let rest = try_deps_args(args, sc)?;
            join_into(&mut own, rest);
            Some(own)
        },
        _ => Some(empty_deps()),
    }
}

/// The dependencies of arguments, in order.
fn try_deps_args(args: &Vec<Node>, sc: &Scope) -> (r: Option<Deps>)
    ensures
        match deps_args(nodes_view(args@), sc@) {
            Some(d) => r matches Some(x) && x@ == d,
            None => r is None,
        },
    decreases args@, 0int,
{
    proof {
        lemma_nodes_view(args@);
    }
    let ghost nv = nodes_view(args@);
    let mut acc = empty_deps();
    let mut i: usize = 0;
    proof {
        assert(nv.subrange(0, 0) =~= Seq::<NodeV>::empty());
    }
    while i < args.len()
        invariant
            i <= args@.len(),
            nv == nodes_view(args@),
            nv.len() == args@.len(),
            forall|j: int| 0 <= j < args@.len() ==> #[trigger] nv[j] == node_view(args@[j]),
            deps_args(nv.subrange(0, i as int), sc@) == Some(acc@),
        decreases args@.len() - i,
    {
        proof {
            let p = nv.subrange(0, i + 1);
            assert(p.drop_last() =~= nv.subrange(0, i as int));
            assert(p.last() == node_view(args@[i as int]));
        }
        match try_deps(&args[i], sc) {
            Some(d) => {
                join_into(&mut acc, d);
            },
            None => {
                proof {
                    lemma_deps_args_none(nv, sc@, i + 1);
                }
                return None;
            },
        }
        i = i + 1;
    }
    proof {
        assert(nv.subrange(0, nv.len() as int) =~= nv);
    }
    Some(acc)
}

proof fn lemma_deps_args_none(args: Seq<NodeV>, sc: ScopeV, k: int)
    requires
        0 <= k <= args.len(),
        deps_args(args.subrange(0, k), sc) is None,
    ensures
        deps_args(args, sc) is None,
    decreases args.len() - k,
{
    if k < args.len() {
        assert(args.subrange(0, k + 1).drop_last() =~= args.subrange(0, k));
        lemma_deps_args_none(args, sc, k + 1);
    } else {
        assert(args.subrange(0, k) =~= args);
    }
}

} // verus!
