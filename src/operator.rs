//! Operators and the operator table.
//!
//! An operator is a value carrying its textual symbol and its precedence
//! (a smaller number binds tighter). The table keeps its operators in
//! longest-first order, so that the first entry matching the input is the
//! longest one: `::=` is never read as `:` `:` `=`.

use vstd::prelude::*;
use vstd::string::StrSliceExecFns;

verus! {

/// An infix operator: its symbol and its precedence.
#[derive(Debug, Clone)]
pub struct Operator {
    symbol: String,
    precedence: u32,
}

impl View for Operator {
    type V = (Seq<char>, u32);

    closed spec fn view(&self) -> (Seq<char>, u32) {
        (self.symbol@, self.precedence)
    }
}

impl Operator {
    /// An operator written `symbol` with the given precedence.
    pub fn new(symbol: &str, precedence: u32) -> (r: Operator)
        ensures
            r@ == (symbol@, precedence),
    {
        Operator { symbol: symbol.to_string(), precedence }
    }

    /// The operator symbol (`=`, `>`, etc.).
    pub fn symbol(&self) -> (r: &str)
        ensures
            r@ == self@.0,
    {
        self.symbol.as_str()
    }

    /// The operator precedence.
    pub fn precedence(&self) -> (r: u32)
        ensures
            r == self@.1,
    {
        self.precedence
    }

    /// A copy of this operator.
    pub fn copied(&self) -> (r: Operator)
        ensures
            r@ == self@,
    {
        Operator { symbol: self.symbol.clone(), precedence: self.precedence }
    }
}

impl PartialEq for Operator {
    /// Operators are equal when their symbols are; precedence is not compared.
    fn eq(&self, other: &Operator) -> (r: bool)
        ensures
            r == (self@.0 == other@.0),
    {
        self.symbol == other.symbol
    }
}

impl vstd::std_specs::cmp::PartialEqSpecImpl for Operator {
    open spec fn obeys_eq_spec() -> bool {
        true
    }

    open spec fn eq_spec(&self, other: &Operator) -> bool {
        self@.0 == other@.0
    }
}

/// Operators as symbol and precedence.
pub type OpV = (Seq<char>, u32);

/// A well-formed table: non-empty symbols, each at most once, in
/// longest-first order.
pub open spec fn table_wf(t: Seq<OpV>) -> bool {
    &&& forall|i: int| 0 <= i < t.len() ==> (#[trigger] t[i]).0.len() > 0
    &&& forall|i: int, j: int| 0 <= i < j < t.len() ==> (#[trigger] t[i]).0.len() >= (#[trigger] t[j]).0.len()
    &&& forall|i: int, j: int| 0 <= i < t.len() && 0 <= j < t.len() && i != j ==> (#[trigger] t[i]).0 != (#[trigger] t[j]).0
}

/// The table holds an operator written `w`.
pub open spec fn has_symbol(t: Seq<OpV>, w: Seq<char>) -> bool {
    exists|i: int| 0 <= i < t.len() && (#[trigger] t[i]).0 == w
}

/// The first index from `i` on whose symbol is shorter than `n`, or the end.
pub open spec fn first_shorter(t: Seq<OpV>, n: nat, i: int) -> int
    decreases t.len() - i,
{
    if i < 0 || i >= t.len() || t[i].0.len() < n {
        i
    } else {
        first_shorter(t, n, i + 1)
    }
}

/// Where an operator with a symbol of length `n` goes in longest-first
/// order: before the first shorter one.
pub open spec fn insert_index(t: Seq<OpV>, n: nat) -> int {
    first_shorter(t, n, 0)
}

/// `w` is written in `s` at position `p`.
pub open spec fn prefix_at(s: Seq<char>, p: int, w: Seq<char>) -> bool {
    0 <= p && p + w.len() <= s.len() && s.subrange(p, p + w.len()) == w
}

/// The first index from `i` on whose symbol is written in `s` at `p`.
pub open spec fn first_match(t: Seq<OpV>, s: Seq<char>, p: int, i: int) -> Option<int>
    decreases t.len() - i,
{
    if i < 0 || i >= t.len() {
        None
    } else if prefix_at(s, p, t[i].0) {
        Some(i)
    } else {
        first_match(t, s, p, i + 1)
    }
}

/// The operator token at `p`: the first table entry written there, and the
/// position after it.
pub open spec fn op_token_spec(t: Seq<OpV>, s: Seq<char>, p: int) -> Option<(int, OpV)> {
    match first_match(t, s, p, 0) {
        Some(i) => Some((p + t[i].0.len(), t[i])),
        None => None,
    }
}

/// The operators that a new table holds.
pub open spec fn default_ops() -> Seq<OpV> {
    seq![
        ("?"@, 0u32),
        ("@"@, 0u32),
        ("@@"@, 0u32),
        ("**"@, 1u32),
        ("%"@, 2u32),
        ("*"@, 2u32),
        ("/"@, 2u32),
        ("+"@, 3u32),
        ("-"@, 3u32),
        ("<<"@, 4u32),
        (">>"@, 4u32),
        ("<"@, 5u32),
        ("<="@, 5u32),
        (">"@, 5u32),
        (">="@, 5u32),
        ("!="@, 6u32),
        ("=="@, 6u32),
        ("&"@, 7u32),
        ("^"@, 8u32),
        ("|"@, 9u32),
        ("&&"@, 10u32),
        ("and"@, 10u32),
        ("||"@, 11u32),
        ("or"@, 11u32),
        (".."@, 12u32),
        ("="@, 13u32),
        (":="@, 13u32),
        ("::="@, 13u32),
        ("%="@, 13u32),
        ("*="@, 13u32),
        ("/="@, 13u32),
        ("+="@, 13u32),
        ("-="@, 13u32),
        ("<<="@, 13u32),
        (">>="@, 13u32),
        ("&="@, 13u32),
        ("^="@, 13u32),
        ("|="@, 13u32),
        ("return"@, u32::MAX)
    ]
}

/// A table of operators.
#[derive(Debug)]
pub struct OperatorTable {
    ops: Vec<Operator>,
}

impl View for OperatorTable {
    type V = Seq<OpV>;

    closed spec fn view(&self) -> Seq<OpV> {
        self.ops@.map_values(|o: Operator| o@)
    }
}

impl OperatorTable {
    #[verifier::type_invariant]
    spec fn inv(self) -> bool {
        table_wf(self@)
    }

    /// Makes known to the caller's proof that the table is well formed.
    pub fn well_formed(&self)
        ensures
            table_wf(self@),
    {
        proof {
            use_type_invariant(self);
        }
    }

    /// An empty table.
    pub fn empty() -> (r: OperatorTable)
        ensures
            r@ == Seq::<OpV>::empty(),
    {
        let r = OperatorTable { ops: Vec::new() };
        assert(r@ =~= Seq::<OpV>::empty());
        r
    }

    /// The operators, longest symbol first.
    pub fn operators(&self) -> (r: &Vec<Operator>)
        ensures
            r@.map_values(|o: Operator| o@) == self@,
    {
        &self.ops
    }

    /// The index of the operator written `symbol`, if there is one.
    pub fn position(&self, symbol: &str) -> (r: Option<usize>)
        ensures
            match r {
                Some(i) => i < self@.len() && self@[i as int].0 == symbol@,
                None => !has_symbol(self@, symbol@),
            },
    {
        let mut i: usize = 0;
        while i < self.ops.len()
            invariant
                i <= self.ops.len(),
                forall|k: int| 0 <= k < i ==> (#[trigger] self@[k]).0 != symbol@,
            decreases self.ops.len() - i,
        {
            if self.ops[i].symbol.as_str().unicode_len() == symbol.unicode_len() && same_chars(
                self.ops[i].symbol.as_str(),
                symbol,
            ) {
                return Some(i);
            }
            i = i + 1;
        }
        None
    }

    /// The precedence of the operator written `symbol`, if the table has it.
    pub fn precedence_of(&self, symbol: &str) -> (r: Option<u32>)
        ensures
            match r {
                Some(v) => exists|i: int| 0 <= i < self@.len() && (#[trigger] self@[i]) == (symbol@, v),
                None => !has_symbol(self@, symbol@),
            },
    {
        match self.position(symbol) {
            Some(i) => {
                assert(self@[i as int] == (symbol@, self.ops[i as int].precedence));
                Some(self.ops[i].precedence)
            },
            None => None,
        }
    }

    /// Adds an operator to the table, unless one with the same symbol is
    /// there already. It goes before the first operator with a shorter
    /// symbol, which keeps the table longest-first.
    pub fn add_operator(&mut self, operator: Operator)
        requires
            operator@.0.len() > 0,
        ensures
            has_symbol(old(self)@, operator@.0) ==> final(self)@ == old(self)@,
            !has_symbol(old(self)@, operator@.0) ==> final(self)@ == old(self)@.insert(
                insert_index(old(self)@, operator@.0.len()),
                operator@,
            ),
    {
        proof {
            use_type_invariant(&*self);
        }
        if self.position(operator.symbol.as_str()).is_some() {
            return;
        }
        let n = operator.symbol.as_str().unicode_len();
        let mut i: usize = 0;
        while i < self.ops.len() && self.ops[i].symbol.as_str().unicode_len() >= n
            invariant
                i <= self.ops.len(),
                n == operator@.0.len(),
                first_shorter(self@, n as nat, i as int) == insert_index(self@, n as nat),
            decreases self.ops.len() - i,
        {
            i = i + 1;
        }
        assert(first_shorter(self@, n as nat, i as int) == i as int);
        let ghost before = self@;
        proof {
            lemma_first_shorter_bounds(before, n as nat, 0);
            lemma_insert_keeps_wf(before, operator@, i as int);
        }
        let mut ops: Vec<Operator> = Vec::new();
        let mut k: usize = 0;
        while k < i
            invariant
                k <= i <= self.ops.len(),
                before == self@,
                ops@.map_values(|o: Operator| o@) =~= before.subrange(0, k as int),
            decreases i - k,
        {
            assert(before[k as int] == self.ops@[k as int]@);
            let ghost prev = ops@;
            let c = self.ops[k].copied();
            ops.push(c);
            assert(ops@.map_values(|o: Operator| o@) =~= prev.map_values(|o: Operator| o@).push(c@));
            k = k + 1;
        }
        let ghost prev = ops@;
        let ghost ov = operator@;
        ops.push(operator);
        assert(ops@.map_values(|o: Operator| o@) =~= prev.map_values(|o: Operator| o@).push(ov));
        while k < self.ops.len()
            invariant
                i <= k <= self.ops.len(),
                before == self@,
                ops@.map_values(|o: Operator| o@) =~= before.subrange(0, i as int).push(operator@) + before.subrange(i as int, k as int),
            decreases self.ops.len() - k,
        {
            assert(before[k as int] == self.ops@[k as int]@);
            let ghost prev = ops@;
            let c = self.ops[k].copied();
            ops.push(c);
            assert(ops@.map_values(|o: Operator| o@) =~= prev.map_values(|o: Operator| o@).push(c@));
            k = k + 1;
        }
        assert(ops@.map_values(|o: Operator| o@) =~= before.insert(i as int, operator@));
        *self = OperatorTable { ops };
    }

    /// The operator token at `p` in `s`: the first operator of the table
    /// written there, and the position after it.
    pub fn op_token(&self, s: &Vec<char>, p: usize) -> (r: Option<(usize, Operator)>)
        requires
            p <= s.len(),
        ensures
            match r {
                Some((q, o)) => op_token_spec(self@, s@, p as int) == Some((q as int, o@)) && p < q <= s.len(),
                None => op_token_spec(self@, s@, p as int) is None,
            },
    {
        proof {
            use_type_invariant(self);
        }
        let mut i: usize = 0;
        while i < self.ops.len()
            invariant
                i <= self.ops.len(),
                p <= s.len(),
                table_wf(self@),
                first_match(self@, s@, p as int, i as int) == first_match(self@, s@, p as int, 0),
            decreases self.ops.len() - i,
        {
            let sym = self.ops[i].symbol.as_str();
            let n = sym.unicode_len();
            if n <= s.len() - p && written_at(s, p, sym, n) {
                assert(self@[i as int].0.len() > 0);
                return Some((p + n, self.ops[i].copied()));
            }
            i = i + 1;
        }
        None
    }
}

impl Default for OperatorTable {
    /// The table of the default operators, in longest-first order.
    fn default() -> (r: OperatorTable)
        ensures
            forall|i: int| 0 <= i < default_ops().len() ==> has_symbol(r@, (#[trigger] default_ops()[i]).0),
            forall|j: int| 0 <= j < r@.len() ==> default_ops().contains(#[trigger] r@[j]),
    {
        let ops = vec![
            Operator::new("?", 0),
            Operator::new("@", 0),
            Operator::new("@@", 0),
            Operator::new("**", 1),
            Operator::new("%", 2),
            Operator::new("*", 2),
            Operator::new("/", 2),
            Operator::new("+", 3),
            Operator::new("-", 3),
            Operator::new("<<", 4),
            Operator::new(">>", 4),
            Operator::new("<", 5),
            Operator::new("<=", 5),
            Operator::new(">", 5),
            Operator::new(">=", 5),
            Operator::new("!=", 6),
            Operator::new("==", 6),
            Operator::new("&", 7),
            Operator::new("^", 8),
            Operator::new("|", 9),
            Operator::new("&&", 10),
            Operator::new("and", 10),
            Operator::new("||", 11),
            Operator::new("or", 11),
            Operator::new("..", 12),
            Operator::new("=", 13),
            Operator::new(":=", 13),
            Operator::new("::=", 13),
            Operator::new("%=", 13),
            Operator::new("*=", 13),
            Operator::new("/=", 13),
            Operator::new("+=", 13),
            Operator::new("-=", 13),
            Operator::new("<<=", 13),
            Operator::new(">>=", 13),
            Operator::new("&=", 13),
            Operator::new("^=", 13),
            Operator::new("|=", 13),
            Operator::new("return", u32::MAX)
        ];
        proof {
            reveal_strlit("?");
        reveal_strlit("@");
        reveal_strlit("@@");
        reveal_strlit("**");
        reveal_strlit("%");
        reveal_strlit("*");
        reveal_strlit("/");
        reveal_strlit("+");
        reveal_strlit("-");
        reveal_strlit("<<");
        reveal_strlit(">>");
        reveal_strlit("<");
        reveal_strlit("<=");
        reveal_strlit(">");
        reveal_strlit(">=");
        reveal_strlit("!=");
        reveal_strlit("==");
        reveal_strlit("&");
        reveal_strlit("^");
        reveal_strlit("|");
        reveal_strlit("&&");
        reveal_strlit("and");
        reveal_strlit("||");
        reveal_strlit("or");
        reveal_strlit("..");
        reveal_strlit("=");
        reveal_strlit(":=");
        reveal_strlit("::=");
        reveal_strlit("%=");
        reveal_strlit("*=");
        reveal_strlit("/=");
        reveal_strlit("+=");
        reveal_strlit("-=");
        reveal_strlit("<<=");
        reveal_strlit(">>=");
        reveal_strlit("&=");
        reveal_strlit("^=");
        reveal_strlit("|=");
        reveal_strlit("return");
            assert(ops@.map_values(|o: Operator| o@) =~= default_ops());
            assert(forall|i: int| 0 <= i < default_ops().len() ==> (#[trigger] default_ops()[i]).0.len() > 0);
        }
        let mut table = OperatorTable::empty();
        let mut k: usize = 0;
        while k < ops.len()
            invariant
                k <= ops.len(),
                ops@.map_values(|o: Operator| o@) == default_ops(),
                forall|i: int| 0 <= i < default_ops().len() ==> (#[trigger] default_ops()[i]).0.len() > 0,
                forall|i: int| 0 <= i < k ==> has_symbol(table@, (#[trigger] default_ops()[i]).0),
                forall|j: int| 0 <= j < table@.len() ==> default_ops().contains(#[trigger] table@[j]),
            decreases ops.len() - k,
        {
            let op = ops[k].copied();
            assert(default_ops()[k as int] == op@);
            let ghost before = table@;
            table.add_operator(op);
            proof {
                lemma_add_keeps(before, table@, op@);
            }
            k = k + 1;
        }
        table
    }
}

/// What adding an operator leaves in the table.
proof fn lemma_add_keeps(before: Seq<OpV>, after: Seq<OpV>, o: OpV)
    requires
        has_symbol(before, o.0) ==> after == before,
        !has_symbol(before, o.0) ==> after == before.insert(insert_index(before, o.0.len()), o),
    ensures
        has_symbol(after, o.0),
        forall|w: Seq<char>| has_symbol(before, w) ==> has_symbol(after, w),
        forall|j: int| 0 <= j < after.len() ==> (after[j] == o || before.contains(#[trigger] after[j])),
{
    let idx = insert_index(before, o.0.len());
    lemma_first_shorter_bounds(before, o.0.len(), 0);
    if !has_symbol(before, o.0) {
        assert(after[idx] == o);
        assert forall|w: Seq<char>| has_symbol(before, w) implies has_symbol(after, w) by {
            let i = choose|i: int| 0 <= i < before.len() && (#[trigger] before[i]).0 == w;
            if i < idx {
                assert(after[i] == before[i]);
            } else {
                assert(after[i + 1] == before[i]);
            }
        }
        assert forall|j: int| 0 <= j < after.len() implies (after[j] == o || before.contains(#[trigger] after[j])) by {
            if j < idx {
                assert(after[j] == before[j]);
            } else if j > idx {
                assert(after[j] == before[j - 1]);
            }
        }
    } else {
        assert forall|j: int| 0 <= j < after.len() implies (after[j] == o || before.contains(#[trigger] after[j])) by {
            assert(after[j] == before[j]);
        }
    }
}

proof fn lemma_first_shorter_bounds(t: Seq<OpV>, n: nat, i: int)
    requires
        0 <= i <= t.len(),
    ensures
        i <= first_shorter(t, n, i) <= t.len(),
        forall|k: int| i <= k < first_shorter(t, n, i) ==> (#[trigger] t[k]).0.len() >= n,
        first_shorter(t, n, i) < t.len() ==> t[first_shorter(t, n, i)].0.len() < n,
    decreases t.len() - i,
{
    if i < t.len() && t[i].0.len() >= n {
        lemma_first_shorter_bounds(t, n, i + 1);
    }
}

/// Inserting a new symbol before the first shorter one keeps a table well
/// formed.
proof fn lemma_insert_keeps_wf(t: Seq<OpV>, o: OpV, i: int)
    requires
        table_wf(t),
        o.0.len() > 0,
        !has_symbol(t, o.0),
        0 <= i <= t.len(),
        forall|k: int| 0 <= k < i ==> (#[trigger] t[k]).0.len() >= o.0.len(),
        i < t.len() ==> t[i].0.len() < o.0.len(),
    ensures
        table_wf(t.insert(i, o)),
{
    let u = t.insert(i, o);
    assert forall|a: int, b: int| 0 <= a < b < u.len() implies (#[trigger] u[a]).0.len() >= (#[trigger] u[b]).0.len() by {
        if a < i && b == i {
        } else if a == i && b > i {
            assert(u[b] == t[b - 1]);
            assert(t[i].0.len() >= t[b - 1].0.len());
        }
    }
    assert forall|a: int, b: int| 0 <= a < u.len() && 0 <= b < u.len() && a != b implies (#[trigger] u[a]).0 != (#[trigger] u[b]).0 by {
        if a == i {
            assert(!(t[if b < i { b } else { b - 1 }].0 == o.0));
        } else if b == i {
            assert(!(t[if a < i { a } else { a - 1 }].0 == o.0));
        }
    }
}

/// Whether two strings hold the same characters, `a` and `b` of equal length.
fn same_chars(a: &str, b: &str) -> (r: bool)
    requires
        a@.len() == b@.len(),
    ensures
        r == (a@ == b@),
{
    let n = a.unicode_len();
    let mut k: usize = 0;
    while k < n
        invariant
            n == a@.len() == b@.len(),
            k <= n,
            forall|j: int| 0 <= j < k ==> a@[j] == b@[j],
        decreases n - k,
    {
        if a.get_char(k) != b.get_char(k) {
            return false;
        }
        k = k + 1;
    }
    assert(a@ =~= b@);
    true
}

/// Whether `w`, of length `n`, is written in `s` at `p`.
fn written_at(s: &Vec<char>, p: usize, w: &str, n: usize) -> (r: bool)
    requires
        n == w@.len(),
        p + n <= s.len(),
    ensures
        r == prefix_at(s@, p as int, w@),
{
    let mut k: usize = 0;
    while k < n
        invariant
            n == w@.len(),
            p + n <= s.len(),
            k <= n,
            forall|j: int| 0 <= j < k ==> s@[p + j] == w@[j],
        decreases n - k,
    {
        if s[p + k] != w.get_char(k) {
            assert(s@.subrange(p as int, p + n)[k as int] != w@[k as int]);
            return false;
        }
        k = k + 1;
    }
    assert(s@.subrange(p as int, p + n) =~= w@);
    true
}

pub proof fn lemma_first_match(t: Seq<OpV>, s: Seq<char>, p: int, i: int)
    requires
        0 <= i <= t.len(),
    ensures
        match first_match(t, s, p, i) {
            Some(k) => i <= k < t.len() && prefix_at(s, p, t[k].0) && forall|j: int|
                i <= j < k ==> !prefix_at(s, p, (#[trigger] t[j]).0),
            None => forall|j: int| i <= j < t.len() ==> !prefix_at(s, p, (#[trigger] t[j]).0),
        },
    decreases t.len() - i,
{
    if i < t.len() && !prefix_at(s, p, t[i].0) {
        lemma_first_match(t, s, p, i + 1);
    }
}

/// Longest match: the operator token read at `p` is the longest operator
/// of the table written there. Any other operator written there, such as a
/// shorter one that is a prefix of it, is strictly shorter, so `::=` is
/// never read as `:` followed by `:=`; and where none is written, none is
/// read.
pub proof fn lemma_longest_match(t: Seq<OpV>, s: Seq<char>, p: int)
    requires
        table_wf(t),
    ensures
        match op_token_spec(t, s, p) {
            Some((q, o)) => {
                &&& prefix_at(s, p, o.0)
                &&& q == p + o.0.len()
                &&& forall|j: int|
                    0 <= j < t.len() && prefix_at(s, p, (#[trigger] t[j]).0) && t[j].0 != o.0 ==> t[j].0.len()
                        < o.0.len()
            },
            None => forall|j: int| 0 <= j < t.len() ==> !prefix_at(s, p, (#[trigger] t[j]).0),
        },
{
    lemma_first_match(t, s, p, 0);
    if let Some(k) = first_match(t, s, p, 0) {
        assert forall|j: int|
            0 <= j < t.len() && prefix_at(s, p, (#[trigger] t[j]).0) && t[j].0 != t[k].0 implies t[j].0.len()
                < t[k].0.len() by {
            if j > k {
                assert(t[k].0.len() >= t[j].0.len());
                if t[j].0.len() == t[k].0.len() {
                    assert(t[j].0 =~= s.subrange(p, p + t[j].0.len()));
                    assert(t[k].0 =~= s.subrange(p, p + t[k].0.len()));
                }
            }
        }
    }
}

} // verus!
