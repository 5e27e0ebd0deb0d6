//! The operator restructurer: turns a chain in surface order, with infix
//! operators standing as bare messages, into the nested form in which each
//! operator holds its operand chain in its first argument.

use vstd::prelude::*;
use crate::ast::{
    lemma_messages_v, lemma_messages_v_push, messages_v, push_first, Message, MessageChain,
    MessageV,
};
use crate::symbol::{Symbol, SymbolV};

verus! {

/// The message is an operator send.
pub open spec fn is_op(m: MessageV) -> bool {
    m.symbol is Operator
}

/// The precedence of an operator message (zero for any other message).
pub open spec fn prec(m: MessageV) -> u32 {
    match m.symbol {
        SymbolV::Operator(o) => o.1,
        _ => 0,
    }
}

/// The state of the desugaring pass: the output so far and the operator
/// buffer (empty, or one pending operator).
pub type DesugarState = (Seq<MessageV>, Option<MessageV>);

/// One message through the desugaring pass.
pub open spec fn desugar_step(st: DesugarState, m: MessageV) -> DesugarState {
    if is_op(m) {
        (
            match st.1 {
                Some(b) => st.0.push(b),
                None => st.0,
            },
            Some(m),
        )
    } else {
        match st.1 {
            Some(b) => (st.0, Some(push_first(b, m))),
            None => (st.0.push(m), None),
        }
    }
}

/// The messages `ms` through the desugaring pass, from state `st`.
pub open spec fn desugar_from(st: DesugarState, ms: Seq<MessageV>) -> DesugarState
    decreases ms.len(),
{
    if ms.len() == 0 {
        st
    } else {
        desugar_from(desugar_step(st, ms[0]), ms.drop_first())
    }
}

/// The output, the buffered operator flushed at its end.
pub open spec fn flush(st: DesugarState) -> Seq<MessageV> {
    match st.1 {
        Some(b) => st.0.push(b),
        None => st.0,
    }
}

/// The first pass: each operator takes the messages that follow it, up to
/// the next operator, into its first argument.
pub open spec fn desugar(ms: Seq<MessageV>) -> Seq<MessageV> {
    flush(desugar_from((Seq::empty(), None), ms))
}

/// Folding a stack of operators: while the top binds tighter than the one
/// below it, it moves into the first argument of that one.
pub open spec fn fold(st: Seq<MessageV>) -> Seq<MessageV>
    decreases st.len(),
{
    if st.len() < 2 {
        st
    } else {
        let top = st.last();
        let next = st[st.len() - 2];
        if prec(top) < prec(next) {
            fold(st.subrange(0, st.len() - 2).push(push_first(next, top)))
        } else {
            st
        }
    }
}

/// The state of the precedence pass: the output so far and the stack.
pub type SortState = (Seq<MessageV>, Seq<MessageV>);

/// One message through the precedence pass.
pub open spec fn sort_step(st: SortState, m: MessageV) -> SortState {
    if is_op(m) {
        let stack = if st.1.len() > 0 && prec(m) > prec(st.1.last()) {
            fold(st.1)
        } else {
            st.1
        };
        (st.0, stack.push(m))
    } else {
        (st.0.push(m), st.1)
    }
}

pub open spec fn sort_from(st: SortState, ms: Seq<MessageV>) -> SortState
    decreases ms.len(),
{
    if ms.len() == 0 {
        st
    } else {
        sort_from(sort_step(st, ms[0]), ms.drop_first())
    }
}

/// The restructured chain: the desugared chain through the precedence pass,
/// with the folded stack after the other messages.
pub open spec fn restructure(ms: Seq<MessageV>) -> Seq<MessageV> {
    let st = sort_from((Seq::empty(), Seq::empty()), desugar(ms));
    st.0 + fold(st.1)
}

fn precedence(m: &Message) -> (r: u32)
    ensures
        r == prec(m@),
{
    match &m.symbol {
        Symbol::Operator(o) => o.precedence(),
        _ => 0,
    }
}

/// The messages of `v` in reverse order.
fn reversed(v: Vec<Message>) -> (r: Vec<Message>)
    ensures
        r@.len() == v@.len(),
        forall|i: int| 0 <= i < v@.len() ==> #[trigger] r@[i] == v@[v@.len() - 1 - i],
{
    let ghost orig = v@;
    let mut v = v;
    let mut r: Vec<Message> = Vec::new();
    while v.len() > 0
        invariant
            v@.len() + r@.len() == orig.len(),
            v@ == orig.subrange(0, v@.len() as int),
            forall|i: int| 0 <= i < r@.len() ==> #[trigger] r@[i] == orig[orig.len() - 1 - i],
        decreases v.len(),
    {
        let m = v.pop().unwrap();
        r.push(m);
    }
    r
}

pub open spec fn opt_v(b: Option<Message>) -> Option<MessageV> {
    match b {
        Some(m) => Some(m@),
        None => None,
    }
}

impl MessageChain {
    /// The first pass of restructuring: each operator takes the messages
    /// that follow it, up to the next operator, into its first argument.
    pub fn desugar_operators(self) -> (r: MessageChain)
        ensures
            r@ == desugar(self@),
    {
        let ghost all = self@;
        proof {
            lemma_messages_v(self.items());
        }
        let n = self.len();
        let mut rest = reversed(self.into_messages());
        let mut out: Vec<Message> = Vec::new();
        let mut buf: Option<Message> = None;
        let mut k: usize = 0;
        assert(all.subrange(0, n as int) =~= all);
        assert(messages_v(out@) == Seq::<MessageV>::empty());
        while k < n
            invariant
                k <= n == all.len(),
                rest@.len() == n - k,
                forall|i: int| 0 <= i < n - k ==> (#[trigger] rest@[i])@ == all[n - 1 - i],
                desugar_from((messages_v(out@), opt_v(buf)), all.subrange(k as int, n as int))
                    == desugar_from((Seq::empty(), None), all),
            decreases n - k,
        {
            let m = rest.pop().unwrap();
            assert(m@ == all[k as int]);
            let ghost before = (messages_v(out@), opt_v(buf));
            proof {
                assert(all.subrange(k as int, n as int).drop_first() =~= all.subrange(k + 1, n as int));
            }
            if m.symbol.is_operator() {
                match buf {
                    Some(b) => {
                        proof {
                            lemma_messages_v_push(out@, b);
                        }
                        out.push(b);
                    },
                    None => {},
                }
                buf = Some(m);
            } else {
                buf = match buf {
                    Some(b) => {
                        let mut b = b;
                        b.push_to_first_arg(m);
                        Some(b)
                    },
                    None => {
                        proof {
                            lemma_messages_v_push(out@, m);
                        }
                        out.push(m);
                        None
                    },
                };
            }
            assert((messages_v(out@), opt_v(buf)) == desugar_step(before, all[k as int]));
            k = k + 1;
        }
        assert(all.subrange(n as int, n as int) =~= Seq::<MessageV>::empty());
        assert(all.subrange(0, n as int) =~= all);
        match buf {
            Some(b) => {
                proof {
                    lemma_messages_v_push(out@, b);
                }
                out.push(b);
            },
            None => {},
        }
        MessageChain::new(out)
    }

    /// Folds the stack: while the top binds tighter than the operator below
    /// it, it moves into that operator's first argument.
    pub fn fold_op_args(stack: &mut Vec<Message>)
        ensures
            messages_v(final(stack)@) == fold(messages_v(old(stack)@)),
    {
        let ghost orig = messages_v(stack@);
        if stack.len() == 0 {
            return;
        }
        proof {
            lemma_messages_v_push(stack@.drop_last(), stack@.last());
            assert(stack@.drop_last().push(stack@.last()) =~= stack@);
        }
        let mut top = stack.pop().unwrap();
        loop
            invariant
                fold(messages_v(stack@).push(top@)) == fold(orig),
            ensures
                messages_v(stack@).push(top@) == fold(orig),
            decreases stack.len(),
        {
            if stack.len() == 0 {
                assert(messages_v(stack@) =~= Seq::<MessageV>::empty());
                break;
            }
            let ghost s0 = stack@;
            proof {
                lemma_messages_v_push(s0.drop_last(), s0.last());
                assert(s0.drop_last().push(s0.last()) =~= s0);
            }
            let mut next = stack.pop().unwrap();
            let ghost full = messages_v(s0).push(top@);
            assert(full.subrange(0, full.len() - 2) =~= messages_v(stack@));
            if precedence(&top) < precedence(&next) {
                next.push_to_first_arg(top);
                top = next;
            } else {
                proof {
                    lemma_messages_v_push(stack@, next);
                }
                stack.push(next);
                break;
            }
        }
        proof {
            lemma_messages_v_push(stack@, top);
        }
        stack.push(top);
    }

    /// Restructures the chain by operator precedence: the desugared chain
    /// goes through a stack on which tighter operators fold into looser
    /// ones; the other messages come first, then the folded stack.
    pub fn sort(self) -> (r: MessageChain)
        ensures
            r@ == restructure(self@),
    {
        let chain = self.desugar_operators();
        let ghost all = chain@;
        proof {
            lemma_messages_v(chain.items());
        }
        let n = chain.len();
        let mut rest = reversed(chain.into_messages());
        let mut out: Vec<Message> = Vec::new();
        let mut stack: Vec<Message> = Vec::new();
        let mut k: usize = 0;
        assert(all.subrange(0, n as int) =~= all);
        assert(messages_v(out@) == Seq::<MessageV>::empty());
        assert(messages_v(stack@) == Seq::<MessageV>::empty());
        while k < n
            invariant
                k <= n == all.len(),
                rest@.len() == n - k,
                forall|i: int| 0 <= i < n - k ==> (#[trigger] rest@[i])@ == all[n - 1 - i],
                sort_from((messages_v(out@), messages_v(stack@)), all.subrange(k as int, n as int))
                    == sort_from((Seq::empty(), Seq::empty()), all),
            decreases n - k,
        {
            let m = rest.pop().unwrap();
            assert(m@ == all[k as int]);
            let ghost before = (messages_v(out@), messages_v(stack@));
            proof {
                assert(all.subrange(k as int, n as int).drop_first() =~= all.subrange(k + 1, n as int));
                lemma_messages_v(stack@);
            }
            if m.symbol.is_operator() {
                if stack.len() > 0 && precedence(&m) > precedence(&stack[stack.len() - 1]) {
                    assert(messages_v(stack@).last() == stack@.last()@);
                    MessageChain::fold_op_args(&mut stack);
                }
                proof {
                    lemma_messages_v_push(stack@, m);
                }
                stack.push(m);
            } else {
                proof {
                    lemma_messages_v_push(out@, m);
                }
                out.push(m);
            }
            assert((messages_v(out@), messages_v(stack@)) == sort_step(before, all[k as int]));
            k = k + 1;
        }
        assert(all.subrange(n as int, n as int) =~= Seq::<MessageV>::empty());
        assert(all.subrange(0, n as int) =~= all);
        MessageChain::fold_op_args(&mut stack);
        let ghost o = out@;
        let ghost st = stack@;
        out.append(&mut stack);
        proof {
            crate::ast::lemma_messages_v_concat(o, st);
        }
        MessageChain::new(out)
    }
}

/// Every message is an operator send.
pub open spec fn all_ops(st: Seq<MessageV>) -> bool {
    forall|i: int| 0 <= i < st.len() ==> is_op(#[trigger] st[i])
}

/// No message is an operator send.
pub open spec fn no_ops(o: Seq<MessageV>) -> bool {
    forall|i: int| 0 <= i < o.len() ==> !is_op(#[trigger] o[i])
}

/// Wherever an operator binds looser than the one below it, that one binds
/// no tighter than its own predecessor.
pub open spec fn climbing(st: Seq<MessageV>) -> bool {
    forall|j: int|
        1 <= j && j + 1 < st.len() && prec(#[trigger] st[j + 1]) > prec(st[j]) ==> prec(st[j]) >= prec(
            st[j - 1],
        )
}

/// The top of the stack does not bind tighter than the operator below it.
pub open spec fn settled(st: Seq<MessageV>) -> bool {
    st.len() >= 2 ==> prec(st.last()) >= prec(st[st.len() - 2])
}

proof fn lemma_fold(st: Seq<MessageV>)
    requires
        all_ops(st),
        climbing(st),
    ensures
        all_ops(fold(st)),
        climbing(fold(st)),
        settled(fold(st)),
    decreases st.len(),
{
    if st.len() >= 2 {
        let top = st.last();
        let next = st[st.len() - 2];
        if prec(top) < prec(next) {
            let st2 = st.subrange(0, st.len() - 2).push(push_first(next, top));
            assert forall|i: int| 0 <= i < st2.len() implies prec(#[trigger] st2[i]) == prec(st[i]) && is_op(st2[i]) by {
                if i < st2.len() - 1 {
                    assert(st2[i] == st[i]);
                }
            }
            assert forall|j: int|
                1 <= j && j + 1 < st2.len() && prec(#[trigger] st2[j + 1]) > prec(st2[j]) implies prec(st2[j]) >= prec(
                    st2[j - 1],
                ) by {
                assert(prec(st2[j + 1]) == prec(st[j + 1]));
                assert(prec(st2[j]) == prec(st[j]));
                assert(prec(st2[j - 1]) == prec(st[j - 1]));
            }
            lemma_fold(st2);
        }
    }
}

proof fn lemma_sort_from_shape(st: SortState, ms: Seq<MessageV>)
    requires
        no_ops(st.0),
        all_ops(st.1),
        climbing(st.1),
    ensures
        no_ops(sort_from(st, ms).0),
        all_ops(sort_from(st, ms).1),
        climbing(sort_from(st, ms).1),
    decreases ms.len(),
{
    if ms.len() > 0 {
        let m = ms[0];
        let st2 = sort_step(st, m);
        if is_op(m) {
            let stack = if st.1.len() > 0 && prec(m) > prec(st.1.last()) {
                lemma_fold(st.1);
                fold(st.1)
            } else {
                st.1
            };
            let pushed = stack.push(m);
            assert forall|j: int|
                1 <= j && j + 1 < pushed.len() && prec(#[trigger] pushed[j + 1]) > prec(pushed[j]) implies prec(pushed[j]) >= prec(
                    pushed[j - 1],
                ) by {
                if j + 1 < stack.len() {
                    assert(pushed[j + 1] == stack[j + 1]);
                    assert(pushed[j] == stack[j]);
                    assert(pushed[j - 1] == stack[j - 1]);
                } else {
                    assert(pushed[j] == stack[j]);
                    assert(pushed[j - 1] == stack[j - 1]);
                }
            }
            assert(all_ops(pushed)) by {
                assert forall|i: int| 0 <= i < pushed.len() implies is_op(#[trigger] pushed[i]) by {
                    if i < stack.len() {
                        assert(pushed[i] == stack[i]);
                    }
                }
            }
            assert(st2 == (st.0, pushed));
        } else {
            assert(no_ops(st.0.push(m))) by {
                assert forall|i: int| 0 <= i < st.0.push(m).len() implies !is_op(#[trigger] st.0.push(m)[i]) by {
                    if i < st.0.len() {
                        assert(st.0.push(m)[i] == st.0[i]);
                    }
                }
            }
        }
        lemma_sort_from_shape(st2, ms.drop_first());
    }
}

proof fn lemma_desugar_from_concat(st: DesugarState, a: Seq<MessageV>, b: Seq<MessageV>)
    ensures
        desugar_from(st, a + b) == desugar_from(desugar_from(st, a), b),
    decreases a.len(),
{
    if a.len() > 0 {
        assert((a + b).drop_first() =~= a.drop_first() + b);
        assert((a + b)[0] == a[0]);
        lemma_desugar_from_concat(desugar_step(st, a[0]), a.drop_first(), b);
    } else {
        assert(a + b =~= b);
    }
}

proof fn lemma_sort_from_concat(st: SortState, a: Seq<MessageV>, b: Seq<MessageV>)
    ensures
        sort_from(st, a + b) == sort_from(sort_from(st, a), b),
    decreases a.len(),
{
    if a.len() > 0 {
        assert((a + b).drop_first() =~= a.drop_first() + b);
        assert((a + b)[0] == a[0]);
        lemma_sort_from_concat(sort_step(st, a[0]), a.drop_first(), b);
    } else {
        assert(a + b =~= b);
    }
}

proof fn lemma_desugar_plain(acc: Seq<MessageV>, o: Seq<MessageV>)
    requires
        no_ops(o),
    ensures
        desugar_from((acc, None), o) == (acc + o, None::<MessageV>),
    decreases o.len(),
{
    if o.len() > 0 {
        assert(!is_op(o[0]));
        assert(no_ops(o.drop_first())) by {
            assert forall|i: int| 0 <= i < o.drop_first().len() implies !is_op(#[trigger] o.drop_first()[i]) by {
                assert(o.drop_first()[i] == o[i + 1]);
            }
        }
        lemma_desugar_plain(acc.push(o[0]), o.drop_first());
        assert(acc.push(o[0]) + o.drop_first() =~= acc + o);
    } else {
        assert(acc + o =~= acc);
    }
}

proof fn lemma_desugar_ops(acc: Seq<MessageV>, buf: Option<MessageV>, f: Seq<MessageV>)
    requires
        all_ops(f),
        f.len() > 0,
    ensures
        desugar_from((acc, buf), f) == (flush((acc, buf)) + f.drop_last(), Some(f.last())),
    decreases f.len(),
{
    assert(is_op(f[0]));
    let st2 = desugar_step((acc, buf), f[0]);
    assert(st2 == (flush((acc, buf)), Some(f[0])));
    assert(desugar_from((acc, buf), f) == desugar_from(st2, f.drop_first()));
    if f.len() == 1 {
        assert(f.drop_first() =~= Seq::<MessageV>::empty());
        assert(desugar_from(st2, f.drop_first()) == st2);
        assert(f.last() == f[0]);
        assert(flush((acc, buf)) + f.drop_last() =~= flush((acc, buf)));
    } else {
        let g = f.drop_first();
        assert(all_ops(g)) by {
            assert forall|i: int| 0 <= i < g.len() implies is_op(#[trigger] g[i]) by {
                assert(g[i] == f[i + 1]);
            }
        }
        lemma_desugar_ops(flush((acc, buf)), Some(f[0]), g);
        assert(flush((flush((acc, buf)), Some(f[0]))) == flush((acc, buf)).push(f[0]));
        assert(flush((acc, buf)).push(f[0]) + g.drop_last() =~= flush((acc, buf)) + f.drop_last());
        assert(g.last() == f.last());
    }
}

proof fn lemma_sort_plain(acc: Seq<MessageV>, stack: Seq<MessageV>, o: Seq<MessageV>)
    requires
        no_ops(o),
    ensures
        sort_from((acc, stack), o) == (acc + o, stack),
    decreases o.len(),
{
    if o.len() > 0 {
        assert(!is_op(o[0]));
        assert(no_ops(o.drop_first())) by {
            assert forall|i: int| 0 <= i < o.drop_first().len() implies !is_op(#[trigger] o.drop_first()[i]) by {
                assert(o.drop_first()[i] == o[i + 1]);
            }
        }
        lemma_sort_plain(acc.push(o[0]), stack, o.drop_first());
        assert(acc.push(o[0]) + o.drop_first() =~= acc + o);
    } else {
        assert(acc + o =~= acc);
    }
}

/// A stack that climbs, fed operators that keep it climbing, never folds.
proof fn lemma_sort_ops(acc: Seq<MessageV>, stack: Seq<MessageV>, f: Seq<MessageV>)
    requires
        all_ops(f),
        climbing(stack + f),
    ensures
        sort_from((acc, stack), f) == (acc, stack + f),
    decreases f.len(),
{
    if f.len() == 0 {
        assert(stack + f =~= stack);
    } else {
        let m = f[0];
        assert(is_op(m));
        let whole = stack + f;
        if stack.len() > 0 && prec(m) > prec(stack.last()) {
            if stack.len() >= 2 {
                let j = stack.len() - 1;
                assert(whole[j + 1] == m);
                assert(whole[j] == stack.last());
                assert(whole[j - 1] == stack[stack.len() - 2]);
            }
            assert(fold(stack) == stack);
        }
        assert(sort_step((acc, stack), m) == (acc, stack.push(m)));
        assert(stack.push(m) + f.drop_first() =~= whole);
        let g = f.drop_first();
        assert(all_ops(g)) by {
            assert forall|i: int| 0 <= i < g.len() implies is_op(#[trigger] g[i]) by {
                assert(g[i] == f[i + 1]);
            }
        }
        lemma_sort_ops(acc, stack.push(m), g);
    }
}

/// Restructuring a chain that is already restructured leaves it as it is.
pub proof fn lemma_restructure_idempotent(ms: Seq<MessageV>)
    ensures
        restructure(restructure(ms)) == restructure(ms),
{
    let st = sort_from((Seq::empty(), Seq::empty()), desugar(ms));
    lemma_sort_from_shape((Seq::empty(), Seq::empty()), desugar(ms));
    lemma_fold(st.1);
    let o = st.0;
    let f = fold(st.1);
    let r = o + f;
    assert(restructure(ms) == r);
    // the desugaring pass leaves it alone
    lemma_desugar_from_concat((Seq::empty(), None), o, f);
    lemma_desugar_plain(Seq::empty(), o);
    assert(Seq::<MessageV>::empty() + o =~= o);
    if f.len() > 0 {
        lemma_desugar_ops(o, None, f);
        assert(o + f.drop_last() + seq![f.last()] =~= r);
        assert((o + f.drop_last()).push(f.last()) =~= r);
    } else {
        assert(r =~= o);
    }
    assert(desugar(r) == r);
    // nor does the precedence pass
    lemma_sort_from_concat((Seq::empty(), Seq::empty()), o, f);
    lemma_sort_plain(Seq::empty(), Seq::empty(), o);
    assert(Seq::<MessageV>::empty() + f =~= f);
    lemma_sort_ops(o, Seq::empty(), f);
    assert(sort_from((Seq::empty(), Seq::empty()), r) == (o, f));
    if f.len() >= 2 {
        assert(fold(f) == f);
    }
}

} // verus!
