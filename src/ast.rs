//! The syntax tree: messages, arguments and message chains, with their
//! mathematical views.

use vstd::prelude::*;
use crate::symbol::{Symbol, SymbolV};

verus! {

/// The mathematical form of a message: its symbol, and for each argument
/// position the chains that stand there.
pub struct MessageV {
    pub symbol: SymbolV,
    pub args: Seq<Seq<Seq<MessageV>>>,
}

/// A message: a symbol and its argument positions.
#[derive(Debug, PartialEq)]
pub struct Message {
    /// The message.
    pub symbol: Symbol,
    /// Arguments.
    pub args: Vec<Argument>,
}

/// One argument position: the chains written there, separated by
/// terminators.
#[derive(Debug, PartialEq)]
pub struct Argument(Vec<MessageChain>);

/// A run of messages sent one after another.
#[derive(Debug, PartialEq)]
pub struct MessageChain(Vec<Message>);

impl Argument {
    /// The chains of this argument position.
    pub closed spec fn items(self) -> Seq<MessageChain> {
        self.0@
    }
}

impl MessageChain {
    /// The messages of this chain.
    pub closed spec fn items(self) -> Seq<Message> {
        self.0@
    }
}

pub open spec fn message_v(m: Message) -> MessageV
    decreases m,
{
    MessageV { symbol: m.symbol@, args: arguments_v(m.args@) }
}

pub open spec fn arguments_v(a: Seq<Argument>) -> Seq<Seq<Seq<MessageV>>>
    decreases a,
{
    if a.len() == 0 {
        seq![]
    } else {
        arguments_v(a.drop_last()).push(chains_v(a.last().items()))
    }
}

pub open spec fn chains_v(c: Seq<MessageChain>) -> Seq<Seq<MessageV>>
    decreases c,
{
    if c.len() == 0 {
        seq![]
    } else {
        chains_v(c.drop_last()).push(messages_v(c.last().items()))
    }
}

pub open spec fn messages_v(ms: Seq<Message>) -> Seq<MessageV>
    decreases ms,
{
    if ms.len() == 0 {
        seq![]
    } else {
        messages_v(ms.drop_last()).push(message_v(ms.last()))
    }
}

impl View for Message {
    type V = MessageV;

    open spec fn view(&self) -> MessageV {
        message_v(*self)
    }
}

impl View for Argument {
    type V = Seq<Seq<MessageV>>;

    open spec fn view(&self) -> Seq<Seq<MessageV>> {
        chains_v(self.items())
    }
}

impl View for MessageChain {
    type V = Seq<MessageV>;

    open spec fn view(&self) -> Seq<MessageV> {
        messages_v(self.items())
    }
}

/// The arguments' view, position by position.
pub proof fn lemma_arguments_v(a: Seq<Argument>)
    ensures
        arguments_v(a).len() == a.len(),
        forall|i: int| 0 <= i < a.len() ==> #[trigger] arguments_v(a)[i] == a[i]@,
    decreases a.len(),
{
    if a.len() > 0 {
        lemma_arguments_v(a.drop_last());
    }
}

/// The chains' view, chain by chain.
pub proof fn lemma_chains_v(c: Seq<MessageChain>)
    ensures
        chains_v(c).len() == c.len(),
        forall|i: int| 0 <= i < c.len() ==> #[trigger] chains_v(c)[i] == c[i]@,
    decreases c.len(),
{
    if c.len() > 0 {
        lemma_chains_v(c.drop_last());
    }
}

/// The messages' view, message by message.
pub proof fn lemma_messages_v(ms: Seq<Message>)
    ensures
        messages_v(ms).len() == ms.len(),
        forall|i: int| 0 <= i < ms.len() ==> #[trigger] messages_v(ms)[i] == ms[i]@,
    decreases ms.len(),
{
    if ms.len() > 0 {
        lemma_messages_v(ms.drop_last());
    }
}

pub proof fn lemma_messages_v_push(ms: Seq<Message>, m: Message)
    ensures
        messages_v(ms.push(m)) == messages_v(ms).push(m@),
{
    assert(ms.push(m).drop_last() =~= ms);
}

pub proof fn lemma_chains_v_push(c: Seq<MessageChain>, x: MessageChain)
    ensures
        chains_v(c.push(x)) == chains_v(c).push(x@),
{
    assert(c.push(x).drop_last() =~= c);
}

pub proof fn lemma_arguments_v_push(a: Seq<Argument>, x: Argument)
    ensures
        arguments_v(a.push(x)) == arguments_v(a).push(x@),
{
    assert(a.push(x).drop_last() =~= a);
}

pub proof fn lemma_messages_v_concat(a: Seq<Message>, b: Seq<Message>)
    ensures
        messages_v(a + b) == messages_v(a) + messages_v(b),
{
    lemma_messages_v(a);
    lemma_messages_v(b);
    lemma_messages_v(a + b);
    assert(messages_v(a + b) =~= messages_v(a) + messages_v(b));
}

/// `x` appended to the first chain of the first argument of `m`, the
/// argument and the chain being made (empty) where missing.
pub open spec fn push_first(m: MessageV, x: MessageV) -> MessageV {
    let args = if m.args.len() == 0 {
        seq![Seq::<Seq<MessageV>>::empty()]
    } else {
        m.args
    };
    let a0 = if args[0].len() == 0 {
        seq![Seq::<MessageV>::empty()]
    } else {
        args[0]
    };
    MessageV { symbol: m.symbol, args: args.update(0, a0.update(0, a0[0].push(x))) }
}

impl Default for MessageChain {
    fn default() -> (r: MessageChain)
        ensures
            r@ == Seq::<MessageV>::empty(),
    {
        MessageChain(Vec::new())
    }
}

impl Default for Argument {
    fn default() -> (r: Argument)
        ensures
            r@ == Seq::<Seq<MessageV>>::empty(),
    {
        Argument(Vec::new())
    }
}

impl MessageChain {
    /// Create a new message chain.
    pub fn new(messages: Vec<Message>) -> (r: MessageChain)
        ensures
            r.items() == messages@,
            r@ == messages_v(messages@),
    {
        MessageChain(messages)
    }

    /// The number of messages.
    pub fn len(&self) -> (r: usize)
        ensures
            r == self@.len(),
    {
        proof {
            lemma_messages_v(self.items());
        }
        self.0.len()
    }

    /// The message at `i`.
    pub fn get(&self, i: usize) -> (r: &Message)
        requires
            i < self@.len(),
        ensures
            r@ == self@[i as int],
            *r == self.items()[i as int],
    {
        proof {
            lemma_messages_v(self.items());
        }
        &self.0[i]
    }

    /// Appends a message.
    pub fn push(&mut self, m: Message)
        ensures
            final(self).items() == old(self).items().push(m),
            final(self)@ == old(self)@.push(m@),
    {
        proof {
            lemma_messages_v_push(self.items(), m);
        }
        self.0.push(m);
    }

    /// The messages, in order.
    pub fn as_slice(&self) -> (r: &[Message])
        ensures
            r@ == self.items(),
    {
        self.0.as_slice()
    }

    /// The messages, in order, taken out of the chain.
    pub fn into_messages(self) -> (r: Vec<Message>)
        ensures
            r@ == self.items(),
    {
        self.0
    }
}

impl Argument {
    /// Create a new argument.
    pub fn new(chains: Vec<MessageChain>) -> (r: Argument)
        ensures
            r.items() == chains@,
            r@ == chains_v(chains@),
    {
        Argument(chains)
    }

    /// The number of chains.
    pub fn len(&self) -> (r: usize)
        ensures
            r == self@.len(),
    {
        proof {
            lemma_chains_v(self.items());
        }
        self.0.len()
    }

    /// The chain at `i`.
    pub fn get(&self, i: usize) -> (r: &MessageChain)
        requires
            i < self@.len(),
        ensures
            r@ == self@[i as int],
            *r == self.items()[i as int],
    {
        proof {
            lemma_chains_v(self.items());
        }
        &self.0[i]
    }

    /// Appends a chain.
    pub fn push(&mut self, c: MessageChain)
        ensures
            final(self).items() == old(self).items().push(c),
            final(self)@ == old(self)@.push(c@),
    {
        proof {
            lemma_chains_v_push(self.items(), c);
        }
        self.0.push(c);
    }

    /// The chains, in order.
    pub fn as_slice(&self) -> (r: &[MessageChain])
        ensures
            r@ == self.items(),
    {
        self.0.as_slice()
    }

    /// Appends `m` to the first chain, which is made (empty) if missing.
    fn push_to_first_chain(&mut self, m: Message)
        ensures
            ({
                let a0 = if old(self)@.len() == 0 {
                    seq![Seq::<MessageV>::empty()]
                } else {
                    old(self)@
                };
                final(self)@ == a0.update(0, a0[0].push(m@))
            }),
    {
        proof {
            lemma_chains_v(self.items());
        }
        if self.0.len() == 0 {
            self.0.push(MessageChain(Vec::new()));
            proof {
                lemma_chains_v(self.items());
                assert(self@ =~= seq![Seq::<MessageV>::empty()]);
            }
        }
        let ghost before = self@;
        let ghost items = self.items();
        let mut first = self.0.remove(0);
        first.push(m);
        self.0.insert(0, first);
        proof {
            lemma_chains_v(self.items());
            assert(self.items() =~= items.update(0, first));
            assert(self@ =~= before.update(0, before[0].push(m@)));
        }
    }
}

impl Message {
    /// Create a new message.
    pub fn new(symbol: Symbol, args: Vec<Argument>) -> (r: Message)
        ensures
            r.symbol == symbol,
            r.args@ == args@,
            r@ == (MessageV { symbol: symbol@, args: arguments_v(args@) }),
    {
        Message { symbol, args }
    }

    /// Push a message to the first argument: the message is appended to the
    /// first chain of the first argument position, which are made (empty)
    /// where missing.
    pub fn push_to_first_arg(&mut self, msg: Message)
        ensures
            final(self)@ == push_first(old(self)@, msg@),
            final(self).symbol == old(self).symbol,
    {
        proof {
            lemma_arguments_v(self.args@);
        }
        if self.args.len() == 0 {
            self.args.push(Argument(Vec::new()));
            proof {
                lemma_arguments_v(self.args@);
                assert(arguments_v(self.args@) =~= seq![Seq::<Seq<MessageV>>::empty()]);
            }
        }
        let ghost before = arguments_v(self.args@);
        let ghost items = self.args@;
        let mut first = self.args.remove(0);
        first.push_to_first_chain(msg);
        self.args.insert(0, first);
        proof {
            lemma_arguments_v(self.args@);
            assert(self.args@ =~= items.update(0, first));
            let a0 = if before[0].len() == 0 {
                seq![Seq::<MessageV>::empty()]
            } else {
                before[0]
            };
            assert(arguments_v(self.args@) =~= before.update(0, a0.update(0, a0[0].push(msg@))));
        }
    }
}

} // verus!
