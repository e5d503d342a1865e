//! The sheet: a sparse mapping from coordinate to formula, and the
//! recursive evaluator that turns a stored formula into a concrete value,
//! detecting reference cycles and type errors.

use vstd::prelude::*;

use crate::coord::Coord;
use crate::formula::{
    dup_atom, lemma_seq_dv, seq_dv, AtomV, ErrV, Formula, FormulaAtom, FormulaErr, FormulaOp,
    FormulaV,
};
use crate::number::{rat_add, rat_div, rat_fits, rat_mul, rat_sub, Number, RatV};

verus! {

/// The ghost views of a list of atoms, in order.
pub open spec fn atoms_dv(s: Seq<FormulaAtom>) -> Seq<AtomV> {
    s.map_values(|a: FormulaAtom| a.dv())
}

pub open spec fn all_numbers(atoms: Seq<AtomV>) -> bool {
    forall|i: int| 0 <= i < atoms.len() ==> (#[trigger] atoms[i]) is Num
}

/// The rational carried by each atom of an all-number list.
pub open spec fn nums_of(atoms: Seq<AtomV>) -> Seq<RatV> {
    atoms.map_values(|a: AtomV| a->Num_0)
}

/// One step of a numeric fold: the exact binary operation, an error when
/// it divides by zero or its result cannot be represented.
pub open spec fn rat_step(op: FormulaOp, acc: RatV, x: RatV) -> Result<RatV, ErrV> {
    if op is Div && x.num == 0 {
        Err(ErrV::DivByZero)
    } else {
        let r = match op {
            FormulaOp::Add => rat_add(acc, x),
            FormulaOp::Sub => rat_sub(acc, x),
            FormulaOp::Mul => rat_mul(acc, x),
            FormulaOp::Div => rat_div(acc, x),
            FormulaOp::Avg => rat_add(acc, x),
        };
        if rat_fits(r) {
            Ok(r)
        } else {
            Err(ErrV::Overflow)
        }
    }
}

/// A left-to-right fold seeded with the first argument's value.
pub open spec fn spec_fold_from(op: FormulaOp, acc: RatV, rest: Seq<RatV>) -> Result<RatV, ErrV>
    decreases rest.len(),
{
    if rest.len() == 0 {
        Ok(acc)
    } else {
        match rat_step(op, acc, rest[0]) {
            Err(e) => Err(e),
            Ok(a) => spec_fold_from(op, a, rest.drop_first()),
        }
    }
}

/// What folding an operator over its evaluated arguments yields: at
/// least one argument, every argument a number, the fold seeded with the
/// first argument, and for `Avg` the sum divided by the argument count.
pub open spec fn spec_fold(op: FormulaOp, atoms: Seq<AtomV>) -> Result<AtomV, ErrV> {
    if atoms.len() == 0 {
        Err(ErrV::Arity(1))
    } else if !all_numbers(atoms) {
        Err(ErrV::Type("Number"@))
    } else {
        let nums = nums_of(atoms);
        match spec_fold_from(op, nums[0], nums.drop_first()) {
            Err(e) => Err(e),
            Ok(sum) => if op is Avg {
                if atoms.len() > i64::MAX as int {
                    Err(ErrV::Overflow)
                } else {
                    match rat_step(FormulaOp::Div, sum, RatV { num: atoms.len() as int, den: 1 }) {
                        Err(e) => Err(e),
                        Ok(r) => Ok(AtomV::Num(r)),
                    }
                }
            } else {
                Ok(AtomV::Num(sum))
            },
        }
    }
}

/// Whether an executable evaluation result has the given ghost value.
pub open spec fn res_matches(r: Result<Box<FormulaAtom>, FormulaErr>, s: Result<AtomV, ErrV>) -> bool {
    match r {
        Ok(b) => s == Ok::<AtomV, ErrV>((*b).dv()),
        Err(e) => s == Err::<AtomV, ErrV>(e.dv()),
    }
}

/// Folds an operator over evaluated arguments, exactly as `spec_fold`
/// says.
fn numeric_op(op: FormulaOp, atoms: &Vec<FormulaAtom>) -> (r: Result<Box<FormulaAtom>, FormulaErr>)
    ensures
        res_matches(r, spec_fold(op, atoms_dv(atoms@))),
{
    let ghost atomsv = atoms_dv(atoms@);
    if atoms.len() == 0 {
        return Err(FormulaErr::Arity(1));
    }
    let mut nums: Vec<Number> = Vec::new();
    let mut i: usize = 0;
    while i < atoms.len()
        invariant
            atomsv == atoms_dv(atoms@),
            atomsv.len() == atoms@.len(),
            0 <= i <= atoms@.len(),
            nums@.len() == i,
            forall|j: int| 0 <= j < i ==> (#[trigger] atomsv[j]) is Num,
            forall|j: int| 0 <= j < i ==> (#[trigger] nums@[j])@ == atomsv[j]->Num_0,
        decreases atoms@.len() - i,
    {
        match &atoms[i] {
            FormulaAtom::Number(n) => {
                nums.push(*n);
            },
            _ => {
                proof {
                    assert(!(atomsv[i as int] is Num));
                }
                return Err(FormulaErr::Type("Number"));
            },
        }
        i += 1;
    }
    proof {
        assert(all_numbers(atomsv));
    }
    let ghost numsv = nums_of(atomsv);
    proof {
        assert(numsv =~= nums@.map_values(|n: Number| n@));
    }
    let mut acc: Number = nums[0];
    let mut i: usize = 1;
    while i < nums.len()
        invariant
            atomsv == atoms_dv(atoms@),
            all_numbers(atomsv),
            1 <= atomsv.len(),
            atomsv.len() == numsv.len(),
            1 <= i <= nums@.len(),
            nums@.len() == numsv.len(),
            numsv == nums_of(atomsv),
            forall|j: int| 0 <= j < numsv.len() ==> (#[trigger] nums@[j])@ == numsv[j],
            spec_fold_from(op, numsv[0], numsv.drop_first()) == spec_fold_from(
                op,
                acc@,
                numsv.subrange(i as int, numsv.len() as int),
            ),
        decreases nums@.len() - i,
    {
        let ghost suffix = numsv.subrange(i as int, numsv.len() as int);
        proof {
            assert(suffix[0] == numsv[i as int]);
            assert(suffix.drop_first() =~= numsv.subrange(i as int + 1, numsv.len() as int));
        }
        let step = match op {
            FormulaOp::Add => acc.checked_add(&nums[i]),
            FormulaOp::Sub => acc.checked_sub(&nums[i]),
            FormulaOp::Mul => acc.checked_mul(&nums[i]),
            FormulaOp::Div => {
                if nums[i].is_zero() {
                    return Err(FormulaErr::DivByZero);
                }
                acc.checked_div(&nums[i])
            },
            FormulaOp::Avg => acc.checked_add(&nums[i]),
        };
        match step {
            Some(x) => {
                acc = x;
            },
            None => {
                return Err(FormulaErr::Overflow);
            },
        }
        i += 1;
    }
    proof {
        assert(numsv.subrange(i as int, numsv.len() as int) =~= Seq::<RatV>::empty());
        assert(spec_fold_from(op, numsv[0], numsv.drop_first()) == Ok::<RatV, ErrV>(acc@));
    }
    match op {
        FormulaOp::Avg => {
            let count = atoms.len();
            if count as u128 > i64::MAX as u128 {
                return Err(FormulaErr::Overflow);
            }
            let divisor = Number::from_int(count as i64);
            match acc.checked_div(&divisor) {
                Some(x) => Ok(Box::new(FormulaAtom::Number(x))),
                None => Err(FormulaErr::Overflow),
            }
        },
        _ => Ok(Box::new(FormulaAtom::Number(acc))),
    }
}

/// A sparse sheet: at most one stored formula per coordinate.
pub struct Sheet {
    cells: Vec<(Coord, Formula)>,
}

/// The mapping an association list denotes.
pub open spec fn map_of(s: Seq<(Coord, Formula)>) -> Map<Coord, FormulaV>
    decreases s.len(),
{
    if s.len() == 0 {
        Map::empty()
    } else {
        map_of(s.drop_last()).insert(s.last().0, s.last().1.dv())
    }
}

pub open spec fn keys_distinct(s: Seq<(Coord, Formula)>) -> bool {
    forall|i: int, j: int|
        0 <= i < j < s.len() ==> (#[trigger] s[i]).0 != (#[trigger] s[j]).0
}

/// What an association list with distinct keys denotes: a finite map
/// whose domain is its key set and whose value at each key is the view
/// of the paired formula.
pub proof fn lemma_map_of(s: Seq<(Coord, Formula)>)
    requires
        keys_distinct(s),
    ensures
        map_of(s).dom().finite(),
        map_of(s).dom().len() <= s.len(),
        forall|c: Coord|
            map_of(s).dom().contains(c) <==> exists|i: int|
                0 <= i < s.len() && (#[trigger] s[i]).0 == c,
        forall|i: int| 0 <= i < s.len() ==> map_of(s)[(#[trigger] s[i]).0] == s[i].1.dv(),
    decreases s.len(),
{
    if s.len() > 0 {
        let s0 = s.drop_last();
        assert(forall|i: int| 0 <= i < s0.len() ==> #[trigger] s0[i] == s[i]);
        lemma_map_of(s0);
        let k = s.last().0;
        assert(s.last() == s[s.len() - 1]);
        assert forall|c: Coord| map_of(s).dom().contains(c) implies exists|i: int|
            0 <= i < s.len() && (#[trigger] s[i]).0 == c by {
            if c == k {
                assert(s[s.len() - 1].0 == c);
            } else {
                let i = choose|i: int| 0 <= i < s0.len() && (#[trigger] s0[i]).0 == c;
                assert(s[i].0 == c);
            }
        }
        assert forall|c: Coord|
            (exists|i: int| 0 <= i < s.len() && (#[trigger] s[i]).0 == c) implies map_of(
            s,
        ).dom().contains(c) by {
            let i = choose|i: int| 0 <= i < s.len() && (#[trigger] s[i]).0 == c;
            if i < s.len() - 1 {
                assert(s0[i].0 == c);
            }
        }
        assert forall|i: int| 0 <= i < s.len() implies map_of(s)[(#[trigger] s[i]).0]
            == s[i].1.dv() by {
            if i < s.len() - 1 {
                assert(s[i].0 != k);
                assert(map_of(s)[s[i].0] == map_of(s0)[s0[i].0]);
            }
        }
    }
}

impl View for Sheet {
    type V = Map<Coord, FormulaV>;

    /// A sheet denotes the mapping from each occupied coordinate to the
    /// view of its stored formula.
    closed spec fn view(&self) -> Map<Coord, FormulaV> {
        map_of(self.cells@)
    }
}

impl Sheet {
    /// The sheet's storage keeps at most one entry per coordinate.
    pub closed spec fn wf(&self) -> bool {
        keys_distinct(self.cells@)
    }

    /// An empty sheet.
    pub fn new() -> (s: Sheet)
        ensures
            s.wf(),
            s@ == Map::<Coord, FormulaV>::empty(),
    {
        Sheet { cells: Vec::new() }
    }

    /// The storage index holding `coord`, if any.
    fn find(&self, coord: Coord) -> (r: Option<usize>)
        requires
            self.wf(),
        ensures
            match r {
                Some(i) => 0 <= i < self.cells@.len() && self.cells@[i as int].0 == coord,
                None => !self@.dom().contains(coord),
            },
    {
        let ghost s = self.cells@;
        let n = self.cells.len();
        let mut i: usize = 0;
        while i < n
            invariant
                s == self.cells@,
                self.wf(),
                n == s.len(),
                0 <= i <= n,
                forall|j: int| 0 <= j < i ==> (#[trigger] s[j]).0 != coord,
            decreases n - i,
        {
            if self.cells[i].0 == coord {
                return Some(i);
            }
            i += 1;
        }
        proof {
            lemma_map_of(s);
        }
        None
    }

    /// Stores `formula` at `coord`. Storing `Atom(Empty)` removes the
    /// entry instead, so an empty cell and a never-set cell are the same.
    /// Setting is idempotent: storing the same formula again leaves the
    /// sheet's mapping unchanged.
    pub fn set(&mut self, coord: Coord, formula: Formula)
        requires
            old(self).wf(),
        ensures
            final(self).wf(),
            final(self)@ == (if formula.dv() == (FormulaV::Atom(AtomV::Empty)) {
                old(self)@.remove(coord)
            } else {
                old(self)@.insert(coord, formula.dv())
            }),
    {
        let ghost s0 = self.cells@;
        proof {
            lemma_map_of(s0);
        }
        let empty = match &formula {
            Formula::Atom(FormulaAtom::Empty) => true,
            _ => false,
        };
        match self.find(coord) {
            Some(i) => {
                if empty {
                    self.cells.remove(i);
                    proof {
                        lemma_remove_entry(s0, i as int);
                        assert(self.cells@ =~= s0.remove(i as int));
                    }
                } else {
                    self.cells[i] = (coord, formula);
                    proof {
                        lemma_update_entry(s0, i as int, (coord, formula));
                        assert(self.cells@ =~= s0.update(i as int, (coord, formula)));
                    }
                }
            },
            None => {
                if empty {
                    proof {
                        assert(map_of(s0) =~= map_of(s0).remove(coord));
                    }
                } else {
                    self.cells.push((coord, formula));
                    proof {
                        let s1 = self.cells@;
                        assert(s1.drop_last() =~= s0);
                        assert(s1.last() == (coord, formula));
                        assert(forall|i: int| 0 <= i < s0.len() ==> #[trigger] s1[i] == s0[i]);
                        lemma_map_of(s0);
                    }
                }
            },
        }
    }
}

/// How many stored cells a walk has not yet visited: the measure that
/// bounds evaluation, since every step through a reference visits one
/// more stored cell or stops.
pub open spec fn unvisited_count(cells: Map<Coord, FormulaV>, visited: Set<Coord>) -> nat {
    if cells.dom().finite() {
        cells.dom().difference(visited).len()
    } else {
        0
    }
}

pub proof fn lemma_unvisited_decreases(cells: Map<Coord, FormulaV>, visited: Set<Coord>, c: Coord)
    requires
        cells.dom().finite(),
        cells.dom().contains(c),
        !visited.contains(c),
    ensures
        unvisited_count(cells, visited.insert(c)) < unvisited_count(cells, visited),
{
    broadcast use vstd::set::group_set_axioms;

    let d = cells.dom().difference(visited);
    assert(d.contains(c));
    assert(cells.dom().difference(visited.insert(c)) =~= d.remove(c));
    assert(d.remove(c).len() == d.len() - 1);
}

/// What evaluating a formula against a sheet yields, walking `visited`
/// down each reference chain. An atom is its own value; a reference to a
/// coordinate already on the chain closes a cycle and fails with that
/// coordinate; a reference to an absent cell is `Empty`; any other
/// reference evaluates the stored formula with the coordinate added to
/// the chain. An operator evaluates its arguments left to right, each
/// from the same chain (so sibling branches meeting at one cell are no
/// cycle), propagates the first failure, and folds per `spec_fold`.
pub open spec fn spec_eval(cells: Map<Coord, FormulaV>, f: FormulaV, visited: Set<Coord>) -> Result<
    AtomV,
    ErrV,
>
    decreases unvisited_count(cells, visited), f,
    via spec_eval_decreases
{
    match f {
        FormulaV::Atom(a) => Ok(a),
        FormulaV::Ref(c) => {
            if visited.contains(c) {
                Err(ErrV::Ref(c))
            } else if !cells.dom().contains(c) {
                Ok(AtomV::Empty)
            } else if !cells.dom().finite() {
                Ok(AtomV::Empty)
            } else {
                spec_eval(cells, cells[c], visited.insert(c))
            }
        },
        FormulaV::Op(op, args) => match spec_eval_args(cells, args, visited) {
            Err(e) => Err(e),
            Ok(atoms) => spec_fold(op, atoms),
        },
    }
}

/// The values of an argument list, left to right, or the first failure.
pub open spec fn spec_eval_args(
    cells: Map<Coord, FormulaV>,
    args: Seq<FormulaV>,
    visited: Set<Coord>,
) -> Result<Seq<AtomV>, ErrV>
    decreases unvisited_count(cells, visited), args,
{
    if args.len() == 0 {
        Ok(Seq::empty())
    } else {
        match spec_eval(cells, args[0], visited) {
            Err(e) => Err(e),
            Ok(a) => match spec_eval_args(cells, args.drop_first(), visited) {
                Err(e) => Err(e),
                Ok(rest) => Ok(seq![a] + rest),
            },
        }
    }
}

#[via_fn]
proof fn spec_eval_decreases(cells: Map<Coord, FormulaV>, f: FormulaV, visited: Set<Coord>) {
    if let FormulaV::Ref(c) = f {
        if !visited.contains(c) && cells.dom().contains(c) && cells.dom().finite() {
            lemma_unvisited_decreases(cells, visited, c);
        }
    }
}

/// What reading a cell yields: `Empty` for an absent cell, else its
/// stored formula evaluated on a fresh chain.
pub open spec fn spec_value(cells: Map<Coord, FormulaV>, coord: Coord) -> Result<AtomV, ErrV> {
    if cells.dom().contains(coord) {
        spec_eval(cells, cells[coord], Set::empty())
    } else {
        Ok(AtomV::Empty)
    }
}

/// Whether `c` occurs in `v`.
fn contains_coord(v: &Vec<Coord>, c: Coord) -> (b: bool)
    ensures
        b == v@.to_set().contains(c),
{
    let mut i: usize = 0;
    while i < v.len()
        invariant
            0 <= i <= v@.len(),
            forall|j: int| 0 <= j < i ==> v@[j] != c,
        decreases v@.len() - i,
    {
        if v[i] == c {
            return true;
        }
        i += 1;
    }
    proof {
        assert(!v@.contains(c));
    }
    false
}

/// An owned copy of a coordinate list.
fn clone_coords(v: &Vec<Coord>) -> (r: Vec<Coord>)
    ensures
        r@ == v@,
{
    let mut r: Vec<Coord> = Vec::new();
    let mut i: usize = 0;
    while i < v.len()
        invariant
            0 <= i <= v@.len(),
            r@ == v@.subrange(0, i as int),
        decreases v@.len() - i,
    {
        r.push(v[i]);
        proof {
            assert(v@.subrange(0, i as int).push(v@[i as int]) =~= v@.subrange(0, i as int + 1));
        }
        i += 1;
    }
    proof {
        assert(v@.subrange(0, v@.len() as int) =~= v@);
    }
    r
}

impl Sheet {
    /// The value of the cell at `coord`: `Empty` when no formula is
    /// stored there, else the stored formula's value, with reference
    /// cycles and ill-typed or unrepresentable arithmetic reported as
    /// errors. Reading never changes the sheet.
    pub fn value(&self, coord: Coord) -> (r: Result<Box<FormulaAtom>, FormulaErr>)
        requires
            self.wf(),
        ensures
            res_matches(r, spec_value(self@, coord)),
    {
        proof {
            lemma_map_of(self.cells@);
        }
        match self.find(coord) {
            Some(i) => {
                let f = &self.cells[i].1;
                proof {
                    assert(f.dv() == self@[coord]);
                }
                self.calc_formula(f)
            },
            None => Ok(Box::new(FormulaAtom::Empty)),
        }
    }

    /// Evaluates a formula against this sheet on a fresh chain.
    fn calc_formula(&self, formula: &Formula) -> (r: Result<Box<FormulaAtom>, FormulaErr>)
        requires
            self.wf(),
        ensures
            res_matches(r, spec_eval(self@, formula.dv(), Set::empty())),
    {
        let visited: Vec<Coord> = Vec::new();
        proof {
            assert(visited@.to_set() =~= Set::<Coord>::empty());
        }
        self.calc_formula_visited(formula, &visited)
    }

    /// Evaluates a formula, `visited` holding the coordinates already on
    /// the reference chain that led here.
    fn calc_formula_visited(&self, formula: &Formula, visited: &Vec<Coord>) -> (r: Result<
        Box<FormulaAtom>,
        FormulaErr,
    >)
        requires
            self.wf(),
        ensures
            res_matches(r, spec_eval(self@, formula.dv(), visited@.to_set())),
        decreases unvisited_count(self@, visited@.to_set()), *formula,
    {
        let ghost cells = self@;
        let ghost vset = visited@.to_set();
        match formula {
            Formula::Atom(a) => Ok(Box::new(dup_atom(a))),
            Formula::Ref(c) => {
                if contains_coord(visited, *c) {
                    Err(FormulaErr::Ref(*c))
                } else {
                    proof {
                        lemma_map_of(self.cells@);
                    }
                    match self.find(*c) {
                        None => Ok(Box::new(FormulaAtom::Empty)),
                        Some(i) => {
                            let mut v2 = clone_coords(visited);
                            v2.push(*c);
                            proof {
                                assert forall|x: Coord|
                                    v2@.contains(x) <==> (visited@.contains(x) || x == *c) by {
                                    if v2@.contains(x) {
                                        let j = choose|j: int|
                                            0 <= j < v2@.len() && v2@[j] == x;
                                        if j < visited@.len() {
                                            assert(visited@[j] == x);
                                        }
                                    }
                                    if visited@.contains(x) {
                                        let j = choose|j: int|
                                            0 <= j < visited@.len() && visited@[j] == x;
                                        assert(v2@[j] == x);
                                    }
                                    if x == *c {
                                        assert(v2@[v2@.len() - 1] == x);
                                    }
                                }
                                assert(v2@.to_set() =~= vset.insert(*c));
                                lemma_unvisited_decreases(cells, vset, *c);
                            }
                            let f2 = &self.cells[i].1;
                            proof {
                                assert(f2.dv() == cells[*c]);
                            }
                            self.calc_formula_visited(f2, &v2)
                        },
                    }
                }
            },
            Formula::Op(op, args) => {
                let ghost argsv = seq_dv(args@);
                proof {
                    lemma_seq_dv(args@);
                }
                let mut atoms: Vec<FormulaAtom> = Vec::new();
                let mut i: usize = 0;
                proof {
                    assert(argsv.subrange(0, argsv.len() as int) =~= argsv);
                    assert(atoms_dv(atoms@) =~= Seq::<AtomV>::empty());
                    if spec_eval_args(cells, argsv, vset) is Ok {
                        assert(Seq::<AtomV>::empty() + spec_eval_args(cells, argsv, vset)->Ok_0
                            =~= spec_eval_args(cells, argsv, vset)->Ok_0);
                    }
                }
                while i < args.len()
                    invariant
                        self.wf(),
                        cells == self@,
                        vset == visited@.to_set(),
                        argsv == seq_dv(args@),
                        argsv.len() == args@.len(),
                        forall|j: int| 0 <= j < args@.len() ==> argsv[j] == (#[trigger] args@[j]).dv(),
                        *formula == Formula::Op(*op, *args),
                        0 <= i <= args@.len(),
                        atoms@.len() == i,
                        spec_eval_args(cells, argsv, vset) == (match spec_eval_args(
                            cells,
                            argsv.subrange(i as int, argsv.len() as int),
                            vset,
                        ) {
                            Err(e) => Err(e),
                            Ok(rest) => Ok(atoms_dv(atoms@) + rest),
                        }),
                    decreases args@.len() - i,
                {
                    let ghost suffix = argsv.subrange(i as int, argsv.len() as int);
                    proof {
                        assert(suffix[0] == argsv[i as int]);
                        assert(suffix.drop_first() =~= argsv.subrange(
                            i as int + 1,
                            argsv.len() as int,
                        ));
                        assert(decreases_to!(*formula => (*formula)->Op_1));
                        assert((*formula)->Op_1 == *args);
                        assert(decreases_to!(*args => args@));
                        assert(decreases_to!(args@ => args@[i as int]));
                    }
                    match self.calc_formula_visited(&args[i], visited) {
                        Ok(b) => {
                            let a = *b;
                            proof {
                                assert(spec_eval(cells, argsv[i as int], vset) == Ok::<
                                    AtomV,
                                    ErrV,
                                >(a.dv()));
                                assert(atoms_dv(atoms@.push(a)) =~= atoms_dv(atoms@).push(a.dv()));
                                assert(atoms_dv(atoms@) + (seq![a.dv()] + spec_rest(
                                    cells,
                                    argsv,
                                    vset,
                                    i as int + 1,
                                )) =~= atoms_dv(atoms@).push(a.dv()) + spec_rest(
                                    cells,
                                    argsv,
                                    vset,
                                    i as int + 1,
                                ));
                            }
                            atoms.push(a);
                        },
                        Err(e) => {
                            return Err(e);
                        },
                    }
                    i += 1;
                }
                proof {
                    assert(argsv.subrange(i as int, argsv.len() as int) =~= Seq::<
                        FormulaV,
                    >::empty());
                    assert(spec_eval_args(cells, argsv, vset) == Ok::<Seq<AtomV>, ErrV>(
                        atoms_dv(atoms@) + Seq::<AtomV>::empty(),
                    ));
                    assert(atoms_dv(atoms@) + Seq::<AtomV>::empty() =~= atoms_dv(atoms@));
                }
                numeric_op(*op, &atoms)
            },
        }
    }
}

/// The values of the argument tail from `i` on, where it has a value;
/// used only to state loop steps.
pub open spec fn spec_rest(
    cells: Map<Coord, FormulaV>,
    args: Seq<FormulaV>,
    visited: Set<Coord>,
    i: int,
) -> Seq<AtomV> {
    spec_eval_args(cells, args.subrange(i, args.len() as int), visited)->Ok_0
}

/// Storing the empty atom at a coordinate removes its entry, so a
/// subsequent read of that coordinate yields `Empty`, exactly as if the
/// cell had never been set.
pub proof fn lemma_cleared_cell_reads_empty(cells: Map<Coord, FormulaV>, coord: Coord)
    ensures
        spec_value(cells.remove(coord), coord) == Ok::<AtomV, ErrV>(AtomV::Empty),
        spec_value(Map::<Coord, FormulaV>::empty(), coord) == Ok::<AtomV, ErrV>(AtomV::Empty),
{
}

/// Storing a formula at a coordinate is idempotent: storing it again
/// leaves the sheet's mapping unchanged, whether the store binds the
/// coordinate or removes it.
pub proof fn lemma_set_idempotent(cells: Map<Coord, FormulaV>, coord: Coord, f: FormulaV)
    ensures
        cells.insert(coord, f).insert(coord, f) == cells.insert(coord, f),
        cells.remove(coord).remove(coord) == cells.remove(coord),
{
    assert(cells.insert(coord, f).insert(coord, f) =~= cells.insert(coord, f));
    assert(cells.remove(coord).remove(coord) =~= cells.remove(coord));
}

/// Whether no cell of a mapping holds the empty atom.
pub open spec fn no_empty_cells(cells: Map<Coord, FormulaV>) -> bool {
    forall|c: Coord|
        #[trigger] cells.dom().contains(c) ==> cells[c] != FormulaV::Atom(AtomV::Empty)
}

/// A coordinate is either absent or bound to a formula that is not the
/// empty atom: an empty sheet has no such cell, and every store keeps it
/// so, because storing the empty atom removes the entry instead.
pub proof fn lemma_no_empty_cells_preserved(cells: Map<Coord, FormulaV>, coord: Coord, f: FormulaV)
    requires
        no_empty_cells(cells),
    ensures
        no_empty_cells(Map::<Coord, FormulaV>::empty()),
        f != FormulaV::Atom(AtomV::Empty) ==> no_empty_cells(cells.insert(coord, f)),
        no_empty_cells(cells.remove(coord)),
{
}

/// Sibling arguments of an operator are evaluated independently, each
/// from the chain that reached the operator: when the argument list
/// evaluates without failure, each argument's value is exactly its own
/// evaluation from that same chain. Two arguments that both reach one
/// shared cell are therefore no cycle.
pub proof fn lemma_op_args_independent(
    cells: Map<Coord, FormulaV>,
    args: Seq<FormulaV>,
    visited: Set<Coord>,
    i: int,
)
    requires
        0 <= i < args.len(),
        spec_eval_args(cells, args, visited) is Ok,
    ensures
        spec_eval_args(cells, args, visited)->Ok_0.len() == args.len(),
        spec_eval(cells, args[i], visited) == Ok::<AtomV, ErrV>(
            spec_eval_args(cells, args, visited)->Ok_0[i],
        ),
    decreases args.len(),
{
    let rest = args.drop_first();
    if i == 0 {
        if rest.len() > 0 {
            lemma_op_args_independent(cells, rest, visited, 0);
        }
    } else {
        lemma_op_args_independent(cells, rest, visited, i - 1);
        assert(rest[i - 1] == args[i]);
    }
}

/// Removing the entry at one index removes exactly its key from the
/// denoted mapping.
proof fn lemma_remove_entry(s: Seq<(Coord, Formula)>, i: int)
    requires
        keys_distinct(s),
        0 <= i < s.len(),
    ensures
        keys_distinct(s.remove(i)),
        map_of(s.remove(i)) == map_of(s).remove(s[i].0),
{
    let s1 = s.remove(i);
    let k = s[i].0;
    assert(forall|j: int| 0 <= j < i ==> #[trigger] s1[j] == s[j]);
    assert(forall|j: int| i <= j < s1.len() ==> #[trigger] s1[j] == s[j + 1]);
    assert forall|a: int, b: int| 0 <= a < b < s1.len() implies (#[trigger] s1[a]).0 != (
    #[trigger] s1[b]).0 by {
        let a2: int = if a < i { a } else { a + 1 };
        let b2: int = if b < i { b } else { b + 1 };
        assert(s1[a] == s[a2] && s1[b] == s[b2]);
    }
    lemma_map_of(s);
    lemma_map_of(s1);
    assert forall|c: Coord|
        map_of(s1).dom().contains(c) == map_of(s).remove(k).dom().contains(c) by {
        if map_of(s1).dom().contains(c) {
            let j = choose|j: int| 0 <= j < s1.len() && (#[trigger] s1[j]).0 == c;
            let j2: int = if j < i { j } else { j + 1 };
            assert(s[j2].0 == c);
            assert(c != k);
        }
        if map_of(s).remove(k).dom().contains(c) {
            let j = choose|j: int| 0 <= j < s.len() && (#[trigger] s[j]).0 == c;
            assert(j != i);
            let j1: int = if j < i { j } else { j - 1 };
            assert(s1[j1].0 == c);
        }
    }
    assert forall|c: Coord| map_of(s1).dom().contains(c) implies map_of(s1)[c] == map_of(s).remove(
        k,
    )[c] by {
        let j = choose|j: int| 0 <= j < s1.len() && (#[trigger] s1[j]).0 == c;
        let j2: int = if j < i { j } else { j + 1 };
        assert(s[j2].0 == c);
        assert(map_of(s1)[c] == s1[j].1.dv());
        assert(map_of(s)[c] == s[j2].1.dv());
    }
    assert(map_of(s1) =~= map_of(s).remove(k));
}

/// Replacing the entry at one index rebinds exactly its key in the
/// denoted mapping.
proof fn lemma_update_entry(s: Seq<(Coord, Formula)>, i: int, p: (Coord, Formula))
    requires
        keys_distinct(s),
        0 <= i < s.len(),
        p.0 == s[i].0,
    ensures
        keys_distinct(s.update(i, p)),
        map_of(s.update(i, p)) == map_of(s).insert(p.0, p.1.dv()),
{
    let s1 = s.update(i, p);
    let k = s[i].0;
    assert(forall|j: int| 0 <= j < s1.len() && j != i ==> #[trigger] s1[j] == s[j]);
    assert(s1[i] == p);
    assert forall|a: int, b: int| 0 <= a < b < s1.len() implies (#[trigger] s1[a]).0 != (
    #[trigger] s1[b]).0 by {
        assert(s1[a].0 == s[a].0 && s1[b].0 == s[b].0);
    }
    lemma_map_of(s);
    lemma_map_of(s1);
    assert forall|c: Coord|
        map_of(s1).dom().contains(c) == map_of(s).insert(k, p.1.dv()).dom().contains(c) by {
        if map_of(s1).dom().contains(c) {
            let j = choose|j: int| 0 <= j < s1.len() && (#[trigger] s1[j]).0 == c;
            assert(s[j].0 == c);
        }
        if map_of(s).insert(k, p.1.dv()).dom().contains(c) && c != k {
            let j = choose|j: int| 0 <= j < s.len() && (#[trigger] s[j]).0 == c;
            assert(s1[j].0 == c);
        }
    }
    assert forall|c: Coord| map_of(s1).dom().contains(c) implies map_of(s1)[c] == map_of(s).insert(
        k,
        p.1.dv(),
    )[c] by {
        let j = choose|j: int| 0 <= j < s1.len() && (#[trigger] s1[j]).0 == c;
        if c == k {
            assert(j == i);
            assert(map_of(s1)[c] == p.1.dv());
        } else {
            assert(j != i);
            assert(s[j].0 == c);
            assert(map_of(s1)[c] == s1[j].1.dv());
            assert(map_of(s)[c] == s[j].1.dv());
        }
    }
    assert(map_of(s1) =~= map_of(s).insert(k, p.1.dv()));
}

} // verus!
