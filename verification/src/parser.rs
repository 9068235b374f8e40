//! Parsing of whitespace source text.
//!
//! `parse` turns source text into a sequence of [`Action`]s by walking the
//! language's prefix-code decision tree token by token; `reduce_labels`
//! rewrites symbolic label ids into direct instruction indices.
//!
//! The grammar is stated once, as spec functions over the sequence of
//! significant tokens (`spec_parse`, `spec_parse_one`), and the executable
//! parser is proved to return exactly what the grammar says.
use crate::symbols::Action;
use crate::symbols::Token;
use std::collections::HashMap;
use vstd::arithmetic::power2::lemma2_to64;
use vstd::arithmetic::power2::lemma2_to64_rest;
use vstd::arithmetic::power2::lemma_pow2_strictly_increases;
use vstd::arithmetic::power2::lemma_pow2_unfold;
use vstd::arithmetic::power2::pow2;
use vstd::prelude::*;

verus! {

broadcast use vstd::std_specs::hash::group_hash_axioms;

/// The three characters that carry meaning; all others are comments.
pub open spec fn is_whitespace_char(c: char) -> bool {
    c == ' ' || c == '\t' || c == '\n'
}

/// The token a significant character stands for.
pub open spec fn token_of_char(c: char) -> Token {
    if c == ' ' {
        Token::Space
    } else if c == '\t' {
        Token::Tab
    } else {
        Token::Return
    }
}

/// The significant tokens of a source text, in source order.
pub open spec fn tokens_of(s: Seq<char>) -> Seq<Token>
    decreases s.len(),
{
    if s.len() == 0 {
        Seq::empty()
    } else {
        let rest = tokens_of(s.drop_last());
        if is_whitespace_char(s.last()) {
            rest.push(token_of_char(s.last()))
        } else {
            rest
        }
    }
}

/// Splits a token sequence at its first `Return`: the run of tokens before it
/// and the remainder after it.  `None` when no `Return` occurs, which aborts a
/// parse (a number or label was never terminated).
pub open spec fn split_run(ts: Seq<Token>) -> Option<(Seq<Token>, Seq<Token>)>
    decreases ts.len(),
{
    if ts.len() == 0 {
        None
    } else if ts[0] is Return {
        Some((Seq::empty(), ts.drop_first()))
    } else {
        match split_run(ts.drop_first()) {
            None => None,
            Some((bits, rest)) => Some((seq![ts[0]] + bits, rest)),
        }
    }
}

/// A split consumes the run, the terminator, and nothing else.
pub proof fn lemma_split_run_len(ts: Seq<Token>)
    ensures
        match split_run(ts) {
            None => true,
            Some((bits, rest)) => bits.len() + 1 + rest.len() == ts.len(),
        },
    decreases ts.len(),
{
    if ts.len() == 0 {
    } else if ts[0] is Return {
    } else {
        lemma_split_run_len(ts.drop_first());
    }
}

/// The label id a run of bit tokens decodes to: a binary number read with an
/// implicit leading 1 bit, `Space` as 1 and `Tab` as 0, truncated to 64 bits.
/// The leading 1 keeps runs that differ only in leading `Tab`s apart.
pub open spec fn label_value(bits: Seq<Token>) -> u64
    decreases bits.len(),
{
    if bits.len() == 0 {
        1u64
    } else {
        let prev = label_value(bits.drop_last());
        if bits.last() is Space {
            (prev << 1u64) | 1u64
        } else {
            prev << 1u64
        }
    }
}

/// The magnitude a run of bit tokens spells, `Space` as 0 and `Tab` as 1,
/// truncated to 64 bits.  An empty run spells 0.
pub open spec fn number_magnitude(bits: Seq<Token>) -> u64
    decreases bits.len(),
{
    if bits.len() == 0 {
        0u64
    } else {
        let prev = number_magnitude(bits.drop_last());
        if bits.last() is Tab {
            (prev << 1u64) | 1u64
        } else {
            prev << 1u64
        }
    }
}

/// The signed value of a magnitude under a sign token, with the wrapping
/// two's-complement reading of magnitudes that overflow an `i64`.
pub open spec fn signed_value(negative: bool, magnitude: u64) -> i64 {
    let m = #[verifier::truncate] (magnitude as i64);
    if negative {
        if m == i64::MIN {
            m
        } else {
            (0 - m) as i64
        }
    } else {
        m
    }
}

/// What a number operand parses to: its value and the tokens after it, or a
/// fatal end (no sign token, a `Return` in sign position, or an unterminated
/// bit run).
pub enum NumberParse {
    Fatal,
    Value(i64, Seq<Token>),
}

/// Parses a signed number operand: one sign token (`Space` non-negative,
/// `Tab` negative), then a bit run terminated by `Return`.
pub open spec fn spec_number(ts: Seq<Token>) -> NumberParse {
    if ts.len() == 0 {
        NumberParse::Fatal
    } else if ts[0] is Return {
        NumberParse::Fatal
    } else {
        match split_run(ts.drop_first()) {
            None => NumberParse::Fatal,
            Some((bits, rest)) => NumberParse::Value(
                signed_value(ts[0] is Tab, number_magnitude(bits)),
                rest,
            ),
        }
    }
}

/// Parses a label operand: a bit run terminated by `Return`, or `None` when
/// the run is unterminated (fatal).
pub open spec fn spec_label(ts: Seq<Token>) -> Option<(u64, Seq<Token>)> {
    match split_run(ts) {
        None => None,
        Some((bits, rest)) => Some((label_value(bits), rest)),
    }
}

/// Whether a token is one of the two bit tokens (a label run never holds a
/// `Return`: the `Return` ends it).
pub open spec fn is_bit_token(t: Token) -> bool {
    t is Space || t is Tab
}

/// The label id of a run, computed without 64-bit truncation: the binary
/// numeral with the implicit leading 1 in front.
pub open spec fn label_nat(bits: Seq<Token>) -> nat
    decreases bits.len(),
{
    if bits.len() == 0 {
        1nat
    } else {
        2 * label_nat(bits.drop_last()) + if bits.last() is Space {
            1nat
        } else {
            0nat
        }
    }
}

proof fn lemma_label_nat_pos(bits: Seq<Token>)
    ensures
        label_nat(bits) >= 1,
    decreases bits.len(),
{
    if bits.len() > 0 {
        lemma_label_nat_pos(bits.drop_last());
    }
}

/// The untruncated id of a run is below 2 to the power of one more than its
/// length.
proof fn lemma_label_nat_bound(bits: Seq<Token>)
    ensures
        label_nat(bits) < pow2((bits.len() + 1) as nat),
    decreases bits.len(),
{
    if bits.len() == 0 {
        lemma2_to64();
    } else {
        lemma_label_nat_bound(bits.drop_last());
        lemma_pow2_unfold((bits.len() + 1) as nat);
    }
}

/// For runs short enough not to truncate, the implemented decoding computes
/// exactly the untruncated numeral.
proof fn lemma_label_value_is_nat(bits: Seq<Token>)
    requires
        bits.len() <= 63,
    ensures
        label_value(bits) == label_nat(bits),
    decreases bits.len(),
{
    if bits.len() > 0 {
        lemma_label_value_is_nat(bits.drop_last());
        lemma_label_nat_bound(bits.drop_last());
        lemma2_to64_rest();
        if bits.len() < 63 {
            lemma_pow2_strictly_increases(bits.len() as nat, 63);
        }
        let prev = label_value(bits.drop_last());
        assert(prev < 0x8000_0000_0000_0000u64 ==> ((prev << 1u64) | 1u64) == prev * 2 + 1
            && (prev << 1u64) == prev * 2) by (bit_vector);
    }
}

proof fn lemma_label_nat_injective(b1: Seq<Token>, b2: Seq<Token>)
    requires
        forall|i: int| 0 <= i < b1.len() ==> is_bit_token(#[trigger] b1[i]),
        forall|i: int| 0 <= i < b2.len() ==> is_bit_token(#[trigger] b2[i]),
        label_nat(b1) == label_nat(b2),
    ensures
        b1 == b2,
    decreases b1.len(),
{
    lemma_label_nat_pos(b1);
    lemma_label_nat_pos(b2);
    if b1.len() == 0 || b2.len() == 0 {
        if b1.len() > 0 {
            lemma_label_nat_pos(b1.drop_last());
        }
        if b2.len() > 0 {
            lemma_label_nat_pos(b2.drop_last());
        }
        assert(b1 =~= b2);
    } else {
        lemma_label_nat_injective(b1.drop_last(), b2.drop_last());
        assert(b1.last() == b2.last());
        assert(b1 =~= b1.drop_last().push(b1.last()));
        assert(b2 =~= b2.drop_last().push(b2.last()));
    }
}

/// Label-encoding law.  Decoding is a function of the token run alone, so
/// equal runs always decode to the same id; and as long as the ids do not
/// overflow a `u64` (runs of at most 63 bits), runs that differ in any bit,
/// or in their number of leading zero bits, decode to different ids: the
/// implicit leading 1 keeps `Space` and `Tab, Space` apart.
pub proof fn lemma_label_encoding_injective(b1: Seq<Token>, b2: Seq<Token>)
    requires
        forall|i: int| 0 <= i < b1.len() ==> is_bit_token(#[trigger] b1[i]),
        forall|i: int| 0 <= i < b2.len() ==> is_bit_token(#[trigger] b2[i]),
        b1.len() <= 63,
        b2.len() <= 63,
        label_value(b1) == label_value(b2),
    ensures
        b1 == b2,
{
    lemma_label_value_is_nat(b1);
    lemma_label_value_is_nat(b2);
    lemma_label_nat_injective(b1, b2);
}

/// What one step of parsing yields: one instruction and the tokens after it,
/// or a fatal end of the whole parse (the source ran out, or showed a
/// `Return`, in the middle of an instruction).
pub enum ParseStep {
    Fatal,
    Step(Action, Seq<Token>),
}

/// One instruction of the grammar, read off the front of a token sequence by
/// the language's prefix-code decision tree.  Unrecognized leaves yield an
/// `Error` instruction and parsing goes on; a truncated instruction is fatal.
pub open spec fn spec_parse_one(ts: Seq<Token>) -> ParseStep {
    if ts.len() < 2 {
        ParseStep::Fatal
    } else {
        match ts[0] {
            // Stack manipulation
            Token::Space => match ts[1] {
                Token::Tab => ParseStep::Step(Action::Error("Unexpected Tab"), ts.skip(2)),
                Token::Space => match spec_number(ts.skip(2)) {
                    NumberParse::Fatal => ParseStep::Fatal,
                    NumberParse::Value(v, rest) => ParseStep::Step(Action::StackPush(v), rest),
                },
                Token::Return => if ts.len() < 3 {
                    ParseStep::Fatal
                } else {
                    match ts[2] {
                        Token::Space => ParseStep::Step(Action::StackDuplicate, ts.skip(3)),
                        Token::Tab => ParseStep::Step(Action::StackSwap, ts.skip(3)),
                        Token::Return => ParseStep::Step(Action::StackDiscard, ts.skip(3)),
                    }
                },
            },
            // Flow control
            Token::Return => if ts.len() < 3 {
                ParseStep::Fatal
            } else {
                match ts[1] {
                    Token::Space => match ts[2] {
                        Token::Tab => match spec_label(ts.skip(3)) {
                            None => ParseStep::Fatal,
                            Some((l, rest)) => ParseStep::Step(Action::Call(l), rest),
                        },
                        Token::Space => match spec_label(ts.skip(3)) {
                            None => ParseStep::Fatal,
                            Some((l, rest)) => ParseStep::Step(Action::Label(l), rest),
                        },
                        Token::Return => match spec_label(ts.skip(3)) {
                            None => ParseStep::Fatal,
                            Some((l, rest)) => ParseStep::Step(Action::Jump(l), rest),
                        },
                    },
                    Token::Tab => match ts[2] {
                        Token::Space => match spec_label(ts.skip(3)) {
                            None => ParseStep::Fatal,
                            Some((l, rest)) => ParseStep::Step(Action::JumpIfZero(l), rest),
                        },
                        Token::Tab => match spec_label(ts.skip(3)) {
                            None => ParseStep::Fatal,
                            Some((l, rest)) => ParseStep::Step(Action::JumpIfNegative(l), rest),
                        },
                        Token::Return => ParseStep::Step(Action::EndSubroutine, ts.skip(3)),
                    },
                    Token::Return => match ts[2] {
                        Token::Space => ParseStep::Step(
                            Action::Error("Unexpected Space"),
                            ts.skip(3),
                        ),
                        Token::Tab => ParseStep::Step(Action::Error("Unexpected Tab"), ts.skip(3)),
                        Token::Return => ParseStep::Step(Action::Halt, ts.skip(3)),
                    },
                }
            },
            // Arithmetic, heap, I/O
            Token::Tab => if ts.len() < 3 {
                ParseStep::Fatal
            } else {
                match ts[1] {
                    // Arithmetic
                    Token::Space => match ts[2] {
                        Token::Return => ParseStep::Step(
                            Action::Error("Unexpected Return"),
                            ts.skip(3),
                        ),
                        Token::Space => if ts.len() < 4 {
                            ParseStep::Fatal
                        } else {
                            match ts[3] {
                                Token::Space => ParseStep::Step(Action::Add, ts.skip(4)),
                                Token::Tab => ParseStep::Step(Action::Subtract, ts.skip(4)),
                                Token::Return => ParseStep::Step(Action::Multiply, ts.skip(4)),
                            }
                        },
                        Token::Tab => if ts.len() < 4 {
                            ParseStep::Fatal
                        } else {
                            match ts[3] {
                                Token::Return => ParseStep::Step(
                                    Action::Error("Unexpected Return"),
                                    ts.skip(4),
                                ),
                                Token::Space => ParseStep::Step(Action::Divide, ts.skip(4)),
                                Token::Tab => ParseStep::Step(Action::Modulo, ts.skip(4)),
                            }
                        },
                    },
                    // Heap manipulation
                    Token::Tab => match ts[2] {
                        Token::Return => ParseStep::Step(
                            Action::Error("Unexpected Return"),
                            ts.skip(3),
                        ),
                        Token::Space => ParseStep::Step(Action::HeapStore, ts.skip(3)),
                        Token::Tab => ParseStep::Step(Action::HeapRetrieve, ts.skip(3)),
                    },
                    // I/O
                    Token::Return => match ts[2] {
                        Token::Return => ParseStep::Step(
                            Action::Error("Unexpected Return"),
                            ts.skip(3),
                        ),
                        Token::Space => if ts.len() < 4 {
                            ParseStep::Fatal
                        } else {
                            match ts[3] {
                                Token::Return => ParseStep::Step(
                                    Action::Error("Unexpected Return"),
                                    ts.skip(4),
                                ),
                                Token::Space => ParseStep::Step(Action::OutputChar, ts.skip(4)),
                                Token::Tab => ParseStep::Step(Action::OutputNumber, ts.skip(4)),
                            }
                        },
                        Token::Tab => if ts.len() < 4 {
                            ParseStep::Fatal
                        } else {
                            match ts[3] {
                                Token::Return => ParseStep::Step(
                                    Action::Error("Unexpected Return"),
                                    ts.skip(4),
                                ),
                                Token::Space => ParseStep::Step(Action::ReadChar, ts.skip(4)),
                                Token::Tab => ParseStep::Step(Action::ReadNumber, ts.skip(4)),
                            }
                        },
                    },
                }
            },
        }
    }
}

/// Every successfully parsed instruction consumes at least one token.
pub proof fn lemma_parse_one_consumes(ts: Seq<Token>)
    ensures
        match spec_parse_one(ts) {
            ParseStep::Fatal => true,
            ParseStep::Step(a, rest) => rest.len() < ts.len(),
        },
{
    if ts.len() >= 2 {
        lemma_split_run_len(ts.skip(2).drop_first());
        if ts.len() >= 3 {
            lemma_split_run_len(ts.skip(3));
        }
    }
}

/// The whole grammar: instructions read one after another until no token
/// remains.  `None` when the source ends, or shows a `Return` in sign
/// position, in the middle of an instruction: the whole parse is then
/// discarded.
pub open spec fn spec_parse(ts: Seq<Token>) -> Option<Seq<Action>>
    decreases ts.len(),
{
    if ts.len() == 0 {
        Some(Seq::empty())
    } else {
        match spec_parse_one(ts) {
            ParseStep::Fatal => None,
            ParseStep::Step(a, rest) => if rest.len() < ts.len() {
                match spec_parse(rest) {
                    None => None,
                    Some(tail) => Some(seq![a] + tail),
                }
            } else {
                // never reached: parsing an instruction consumes tokens
                None
            },
        }
    }
}

/// Yields the significant tokens of a source text one at a time, in source
/// order, skipping comment characters.
pub struct Tokenizer {
    tokens: Vec<Token>,
    pos: usize,
}

impl Tokenizer {
    /// The tokens not yet consumed.
    pub closed spec fn remaining(&self) -> Seq<Token> {
        self.tokens@.skip(self.pos as int)
    }

    pub closed spec fn wf(&self) -> bool {
        self.pos <= self.tokens@.len()
    }

    /// Scans the source once and keeps only its significant tokens.
    pub fn new(program: &str) -> (t: Tokenizer)
        ensures
            t.remaining() == tokens_of(program@),
            t.wf(),
    {
        let n = program.unicode_len();
        let mut tokens: Vec<Token> = Vec::new();
        let mut i: usize = 0;
        while i < n
            invariant
                i <= n,
                n == program@.len(),
                tokens@ == tokens_of(program@.take(i as int)),
            decreases n - i,
        {
            let c = program.get_char(i);
            proof {
                assert(program@.take(i + 1).drop_last() =~= program@.take(i as int));
                assert(program@.take(i + 1).last() == program@[i as int]);
            }
            if c == ' ' {
                tokens.push(Token::Space);
            } else if c == '\t' {
                tokens.push(Token::Tab);
            } else if c == '\n' {
                tokens.push(Token::Return);
            }
            i = i + 1;
        }
        proof {
            assert(program@.take(n as int) =~= program@);
        }
        Tokenizer { tokens, pos: 0 }
    }

    /// Consumes and returns the next significant token, or `None` when the
    /// source is exhausted.
    pub fn next(&mut self) -> (r: Option<Token>)
        requires
            old(self).wf(),
        ensures
            final(self).wf(),
            old(self).remaining().len() > 0 ==> r == Some(old(self).remaining()[0])
                && final(self).remaining() == old(self).remaining().drop_first(),
            old(self).remaining().len() == 0 ==> r is None && final(self).remaining()
                == old(self).remaining(),
    {
        if self.pos < self.tokens.len() {
            let t = self.tokens[self.pos];
            self.pos = self.pos + 1;
            Some(t)
        } else {
            None
        }
    }

    /// Reports whether a significant token remains.
    pub fn more(&self) -> (r: bool)
        requires
            self.wf(),
        ensures
            r == (self.remaining().len() > 0),
    {
        self.pos < self.tokens.len()
    }
}

/// Splitting off a run commutes with putting back already-consumed bit
/// tokens: the consumed tokens rejoin the run and the remainder is unchanged.
proof fn lemma_split_run_prepend(prefix: Seq<Token>, ts: Seq<Token>)
    requires
        forall|i: int| 0 <= i < prefix.len() ==> !(#[trigger] prefix[i] is Return),
    ensures
        match split_run(ts) {
            None => split_run(prefix + ts) is None,
            Some((bits, rest)) => split_run(prefix + ts) == Some((prefix + bits, rest)),
        },
    decreases prefix.len(),
{
    if prefix.len() == 0 {
        assert(prefix + ts =~= ts);
        match split_run(ts) {
            None => {}
            Some((bits, rest)) => {
                assert(prefix + bits =~= bits);
            }
        }
    } else {
        lemma_split_run_prepend(prefix.drop_first(), ts);
        assert((prefix + ts).drop_first() =~= prefix.drop_first() + ts);
        assert((prefix + ts)[0] == prefix[0]);
        match split_run(prefix.drop_first() + ts) {
            None => {}
            Some((bits, rest)) => {
                assert(seq![(prefix + ts)[0]] + (prefix.drop_first() + bits) =~= prefix + bits);
            }
        }
    }
}

/// Consumes a `Return`-terminated bit run and decodes it as a label id.
/// `None` when the source ends before the terminator: the parse aborts.
fn consume_label(program: &mut Tokenizer) -> (r: Option<u64>)
    requires
        old(program).wf(),
    ensures
        final(program).wf(),
        match spec_label(old(program).remaining()) {
            None => r is None,
            Some((l, rest)) => r == Some(l) && final(program).remaining() == rest,
        },
{
    let mut label: u64 = 1;
    let ghost orig = program.remaining();
    let ghost mut consumed: Seq<Token> = Seq::empty();
    proof {
        assert(orig =~= consumed + program.remaining());
    }
    loop
        invariant
            program.wf(),
            orig == old(program).remaining(),
            forall|i: int| 0 <= i < consumed.len() ==> !(#[trigger] consumed[i] is Return),
            orig == consumed + program.remaining(),
            label == label_value(consumed),
        decreases program.remaining().len(),
    {
        let ghost before = program.remaining();
        match program.next() {
            None => {
                proof {
                    lemma_split_run_prepend(consumed, before);
                }
                return None;
            }
            Some(Token::Return) => {
                proof {
                    lemma_split_run_prepend(consumed, before);
                    assert(consumed + Seq::<Token>::empty() =~= consumed);
                }
                return Some(label);
            }
            Some(t) => {
                label = if let Token::Space = t {
                    (label << 1u64) | 1u64
                } else {
                    label << 1u64
                };
                proof {
                    assert(consumed.push(t).drop_last() =~= consumed);
                    consumed = consumed.push(t);
                    assert(orig =~= consumed + program.remaining());
                }
            }
        }
    }
}

/// Consumes a sign token and a `Return`-terminated bit run and decodes them
/// as a signed number.  `None` when the source ends first or the sign
/// position holds a `Return`: the parse aborts.
fn consume_number(program: &mut Tokenizer) -> (r: Option<i64>)
    requires
        old(program).wf(),
    ensures
        final(program).wf(),
        match spec_number(old(program).remaining()) {
            NumberParse::Fatal => r is None,
            NumberParse::Value(v, rest) => r == Some(v) && final(program).remaining() == rest,
        },
{
    let negative = match program.next() {
        None => {
            return None;
        }
        Some(Token::Return) => {
            return None;
        }
        Some(Token::Tab) => true,
        Some(Token::Space) => false,
    };
    let mut magnitude: u64 = 0;
    let ghost orig = program.remaining();
    let ghost mut consumed: Seq<Token> = Seq::empty();
    proof {
        assert(orig =~= consumed + program.remaining());
    }
    loop
        invariant
            program.wf(),
            old(program).remaining().len() > 0,
            !(old(program).remaining()[0] is Return),
            negative == (old(program).remaining()[0] is Tab),
            orig == old(program).remaining().drop_first(),
            forall|i: int| 0 <= i < consumed.len() ==> !(#[trigger] consumed[i] is Return),
            orig == consumed + program.remaining(),
            magnitude == number_magnitude(consumed),
        decreases program.remaining().len(),
    {
        let ghost before = program.remaining();
        match program.next() {
            None => {
                proof {
                    lemma_split_run_prepend(consumed, before);
                }
                return None;
            }
            Some(Token::Return) => {
                proof {
                    lemma_split_run_prepend(consumed, before);
                    assert(consumed + Seq::<Token>::empty() =~= consumed);
                }
                let m = #[verifier::truncate] (magnitude as i64);
                return Some(
                    if negative {
                        if m == i64::MIN {
                            m
                        } else {
                            -m
                        }
                    } else {
                        m
                    },
                );
            }
            Some(t) => {
                magnitude = if let Token::Tab = t {
                    (magnitude << 1u64) | 1u64
                } else {
                    magnitude << 1u64
                };
                proof {
                    assert(consumed.push(t).drop_last() =~= consumed);
                    consumed = consumed.push(t);
                    assert(orig =~= consumed + program.remaining());
                }
            }
        }
    }
}

/// Parses one instruction off the front of the token stream by the
/// prefix-code decision tree.  `None` when the stream ends mid-instruction:
/// the whole parse aborts.
fn parse_token(tokens: &mut Tokenizer) -> (r: Option<Action>)
    requires
        old(tokens).wf(),
    ensures
        final(tokens).wf(),
        match spec_parse_one(old(tokens).remaining()) {
            ParseStep::Fatal => r is None,
            ParseStep::Step(a, rest) => r == Some(a) && final(tokens).remaining() == rest,
        },
{
    let ghost ts = tokens.remaining();
    let t0 = match tokens.next() {
        Some(t) => t,
        None => {
            return None;
        }
    };
    let t1 = match tokens.next() {
        Some(t) => t,
        None => {
            return None;
        }
    };
    proof {
        assert(ts.skip(2) =~= ts.drop_first().drop_first());
    }
    match t0 {
        // Stack manipulation
        Token::Space => match t1 {
            Token::Tab => Some(Action::Error("Unexpected Tab")),
            Token::Space => match consume_number(tokens) {
                Some(v) => Some(Action::StackPush(v)),
                None => None,
            },
            Token::Return => {
                let t2 = match tokens.next() {
                    Some(t) => t,
                    None => {
                        return None;
                    }
                };
                proof {
                    assert(ts.skip(3) =~= ts.drop_first().drop_first().drop_first());
                }
                match t2 {
                    Token::Space => Some(Action::StackDuplicate),
                    Token::Tab => Some(Action::StackSwap),
                    Token::Return => Some(Action::StackDiscard),
                }
            }
        },
        // Flow control
        Token::Return => {
            let t2 = match tokens.next() {
                Some(t) => t,
                None => {
                    return None;
                }
            };
            proof {
                assert(ts.skip(3) =~= ts.drop_first().drop_first().drop_first());
            }
            match t1 {
                Token::Space => match t2 {
                    Token::Tab => match consume_label(tokens) {
                        Some(l) => Some(Action::Call(l)),
                        None => None,
                    },
                    Token::Space => match consume_label(tokens) {
                        Some(l) => Some(Action::Label(l)),
                        None => None,
                    },
                    Token::Return => match consume_label(tokens) {
                        Some(l) => Some(Action::Jump(l)),
                        None => None,
                    },
                },
                Token::Tab => match t2 {
                    Token::Space => match consume_label(tokens) {
                        Some(l) => Some(Action::JumpIfZero(l)),
                        None => None,
                    },
                    Token::Tab => match consume_label(tokens) {
                        Some(l) => Some(Action::JumpIfNegative(l)),
                        None => None,
                    },
                    Token::Return => Some(Action::EndSubroutine),
                },
                Token::Return => match t2 {
                    Token::Space => Some(Action::Error("Unexpected Space")),
                    Token::Tab => Some(Action::Error("Unexpected Tab")),
                    Token::Return => Some(Action::Halt),
                },
            }
        }
        // Arithmetic, heap, I/O
        Token::Tab => {
            let t2 = match tokens.next() {
                Some(t) => t,
                None => {
                    return None;
                }
            };
            proof {
                assert(ts.skip(3) =~= ts.drop_first().drop_first().drop_first());
            }
            match t1 {
                // Arithmetic
                Token::Space => match t2 {
                    Token::Return => Some(Action::Error("Unexpected Return")),
                    Token::Space => {
                        let t3 = match tokens.next() {
                            Some(t) => t,
                            None => {
                                return None;
                            }
                        };
                        proof {
                            assert(ts.skip(4) =~= ts.skip(3).drop_first());
                        }
                        match t3 {
                            Token::Space => Some(Action::Add),
                            Token::Tab => Some(Action::Subtract),
                            Token::Return => Some(Action::Multiply),
                        }
                    }
                    Token::Tab => {
                        let t3 = match tokens.next() {
                            Some(t) => t,
                            None => {
                                return None;
                            }
                        };
                        proof {
                            assert(ts.skip(4) =~= ts.skip(3).drop_first());
                        }
                        match t3 {
                            Token::Return => Some(Action::Error("Unexpected Return")),
                            Token::Space => Some(Action::Divide),
                            Token::Tab => Some(Action::Modulo),
                        }
                    }
                },
                // Heap manipulation
                Token::Tab => match t2 {
                    Token::Return => Some(Action::Error("Unexpected Return")),
                    Token::Space => Some(Action::HeapStore),
                    Token::Tab => Some(Action::HeapRetrieve),
                },
                // I/O
                Token::Return => match t2 {
                    Token::Return => Some(Action::Error("Unexpected Return")),
                    Token::Space => {
                        let t3 = match tokens.next() {
                            Some(t) => t,
                            None => {
                                return None;
                            }
                        };
                        proof {
                            assert(ts.skip(4) =~= ts.skip(3).drop_first());
                        }
                        match t3 {
                            Token::Return => Some(Action::Error("Unexpected Return")),
                            Token::Space => Some(Action::OutputChar),
                            Token::Tab => Some(Action::OutputNumber),
                        }
                    }
                    Token::Tab => {
                        let t3 = match tokens.next() {
                            Some(t) => t,
                            None => {
                                return None;
                            }
                        };
                        proof {
                            assert(ts.skip(4) =~= ts.skip(3).drop_first());
                        }
                        match t3 {
                            Token::Return => Some(Action::Error("Unexpected Return")),
                            Token::Space => Some(Action::ReadChar),
                            Token::Tab => Some(Action::ReadNumber),
                        }
                    }
                },
            }
        }
    }
}

/// Parses instructions until no significant token remains.  `None` when the
/// stream ends mid-instruction: the partial result is discarded.
fn _parse(tokens: &mut Tokenizer) -> (r: Option<Vec<Action>>)
    requires
        old(tokens).wf(),
    ensures
        match spec_parse(old(tokens).remaining()) {
            None => r is None,
            Some(full) => r matches Some(v) && v@ == full,
        },
{
    let mut actions: Vec<Action> = Vec::new();
    while tokens.more()
        invariant
            tokens.wf(),
            match spec_parse(tokens.remaining()) {
                None => spec_parse(old(tokens).remaining()) is None,
                Some(tail) => spec_parse(old(tokens).remaining()) matches Some(full) && full
                    == actions@ + tail,
            },
        decreases tokens.remaining().len(),
    {
        let ghost before = tokens.remaining();
        proof {
            lemma_parse_one_consumes(before);
        }
        match parse_token(tokens) {
            None => {
                return None;
            }
            Some(a) => {
                proof {
                    if let ParseStep::Step(sa, rest) = spec_parse_one(before) {
                        if let Some(tail) = spec_parse(rest) {
                            assert(actions@ + (seq![sa] + tail) =~= actions@.push(sa) + tail);
                        }
                    }
                }
                actions.push(a);
            }
        }
    }
    proof {
        assert(actions@ + Seq::<Action>::empty() =~= actions@);
    }
    Some(actions)
}

/// Whether an instruction defines a label (and is dropped by resolution).
pub open spec fn is_label_def(a: Action) -> bool {
    a is Label
}

/// The label id an instruction refers to, when it is one of the four
/// flow-control instructions that name a jump target.  After resolution the
/// same position holds the target instruction index instead.
pub open spec fn label_ref(a: Action) -> Option<u64> {
    match a {
        Action::Call(l) => Some(l),
        Action::Jump(l) => Some(l),
        Action::JumpIfZero(l) => Some(l),
        Action::JumpIfNegative(l) => Some(l),
        _ => None,
    }
}

/// How many instructions of a raw sequence survive label resolution.
pub open spec fn out_count(prog: Seq<Action>) -> nat
    decreases prog.len(),
{
    if prog.len() == 0 {
        0nat
    } else {
        out_count(prog.drop_last()) + if is_label_def(prog.last()) {
            0nat
        } else {
            1nat
        }
    }
}

/// The symbol table of a raw sequence: each defined label mapped to the index
/// its following instruction will have once label definitions are dropped.
/// A label defined twice keeps its later definition (last write wins).
pub open spec fn label_table(prog: Seq<Action>) -> Map<u64, u64>
    decreases prog.len(),
{
    if prog.len() == 0 {
        Map::empty()
    } else {
        let m = label_table(prog.drop_last());
        match prog.last() {
            Action::Label(l) => m.insert(l, out_count(prog.drop_last()) as u64),
            _ => m,
        }
    }
}

/// Whether every label referred to in the sequence is defined in it.
pub open spec fn refs_defined(prog: Seq<Action>) -> bool {
    forall|i: int|
        0 <= i < prog.len() ==> ((#[trigger] label_ref(prog[i])) matches Some(l)
            ==> label_table(prog).contains_key(l))
}

/// An instruction with its label reference, if any, replaced by the table's
/// target index.
pub open spec fn rewrite_action(a: Action, table: Map<u64, u64>) -> Action {
    match a {
        Action::Call(l) => Action::Call(table[l]),
        Action::Jump(l) => Action::Jump(table[l]),
        Action::JumpIfZero(l) => Action::JumpIfZero(table[l]),
        Action::JumpIfNegative(l) => Action::JumpIfNegative(table[l]),
        _ => a,
    }
}

/// The sequence with label definitions dropped and every label reference
/// rewritten through the table.
pub open spec fn reduce_with(prog: Seq<Action>, table: Map<u64, u64>) -> Seq<Action>
    decreases prog.len(),
{
    if prog.len() == 0 {
        Seq::empty()
    } else {
        let rest = reduce_with(prog.drop_last(), table);
        if is_label_def(prog.last()) {
            rest
        } else {
            rest.push(rewrite_action(prog.last(), table))
        }
    }
}

/// What label resolution produces: the sequence reduced through its own
/// symbol table.
pub open spec fn spec_reduce(prog: Seq<Action>) -> Seq<Action> {
    reduce_with(prog, label_table(prog))
}

/// Replaces the labels in a program with direct instruction indices.  Every
/// referenced label must be defined; `try_reduce_labels` accepts any program.
pub fn reduce_labels(program: Vec<Action>) -> (r: Vec<Action>)
    requires
        refs_defined(program@),
    ensures
        r@ == spec_reduce(program@),
{
    try_reduce_labels(&program).unwrap()
}

/// Replaces the labels in a program with direct instruction indices, or
/// `None` when some flow-control instruction refers to a label that is never
/// defined.
pub fn try_reduce_labels(program: &Vec<Action>) -> (r: Option<Vec<Action>>)
    ensures
        refs_defined(program@) ==> (r matches Some(v) && v@ == spec_reduce(program@)),
        !refs_defined(program@) ==> r is None,
{
    let n = program.len();
    // First pass: record each label definition with the index the next
    // surviving instruction will receive.
    let mut labels: HashMap<u64, u64> = HashMap::new();
    let mut pointer: u64 = 0;
    let mut i: usize = 0;
    while i < n
        invariant
            n == program@.len(),
            i <= n,
            pointer <= i,
            pointer == out_count(program@.take(i as int)),
            labels@ == label_table(program@.take(i as int)),
        decreases n - i,
    {
        proof {
            assert(program@.take(i + 1).drop_last() =~= program@.take(i as int));
        }
        match program[i] {
            Action::Label(l) => {
                labels.insert(l, pointer);
            }
            _ => {
                pointer = pointer + 1;
            }
        }
        i = i + 1;
    }
    proof {
        assert(program@.take(n as int) =~= program@);
    }
    // Second pass: drop label definitions and rewrite label references.
    let ghost table = label_table(program@);
    let mut reduced: Vec<Action> = Vec::new();
    let mut j: usize = 0;
    while j < n
        invariant
            n == program@.len(),
            j <= n,
            labels@ == table,
            table == label_table(program@),
            reduced@ == reduce_with(program@.take(j as int), table),
            forall|i: int|
                0 <= i < j ==> ((#[trigger] label_ref(program@[i])) matches Some(l)
                    ==> table.contains_key(l)),
        decreases n - j,
    {
        proof {
            assert(program@.take(j + 1).drop_last() =~= program@.take(j as int));
        }
        match program[j] {
            Action::Label(_) => {}
            Action::Call(l) => match labels.get(&l) {
                Some(t) => reduced.push(Action::Call(*t)),
                None => {
                    proof {
                        assert(label_ref(program@[j as int]) == Some(l));
                        assert(!refs_defined(program@));
                    }
                    return None;
                }
            },
            Action::Jump(l) => match labels.get(&l) {
                Some(t) => reduced.push(Action::Jump(*t)),
                None => {
                    proof {
                        assert(label_ref(program@[j as int]) == Some(l));
                        assert(!refs_defined(program@));
                    }
                    return None;
                }
            },
            Action::JumpIfZero(l) => match labels.get(&l) {
                Some(t) => reduced.push(Action::JumpIfZero(*t)),
                None => {
                    proof {
                        assert(label_ref(program@[j as int]) == Some(l));
                        assert(!refs_defined(program@));
                    }
                    return None;
                }
            },
            Action::JumpIfNegative(l) => match labels.get(&l) {
                Some(t) => reduced.push(Action::JumpIfNegative(*t)),
                None => {
                    proof {
                        assert(label_ref(program@[j as int]) == Some(l));
                        assert(!refs_defined(program@));
                    }
                    return None;
                }
            },
            other => {
                reduced.push(other);
            }
        }
        j = j + 1;
    }
    proof {
        assert(program@.take(n as int) =~= program@);
    }
    Some(reduced)
}

/// Helper for the round-trip law: if every reference in the sequence resolves
/// through the table to a target below `bound`, the reduced sequence has
/// exactly `bound`-independent length `out_count`, keeps no label
/// definitions, and every rewritten target is below `bound`.
proof fn lemma_reduce_with_props(prog: Seq<Action>, table: Map<u64, u64>, bound: nat)
    requires
        forall|i: int|
            0 <= i < prog.len() ==> ((#[trigger] label_ref(prog[i])) matches Some(l)
                ==> table.contains_key(l) && table[l] < bound),
    ensures
        reduce_with(prog, table).len() == out_count(prog),
        forall|j: int|
            0 <= j < reduce_with(prog, table).len() ==> !is_label_def(
                #[trigger] reduce_with(prog, table)[j],
            ),
        forall|j: int|
            0 <= j < reduce_with(prog, table).len() ==> ((#[trigger] label_ref(
                reduce_with(prog, table)[j],
            )) matches Some(t) ==> t < bound),
    decreases prog.len(),
{
    if prog.len() > 0 {
        assert(forall|i: int|
            0 <= i < prog.drop_last().len() ==> #[trigger] prog.drop_last()[i] == prog[i]);
        lemma_reduce_with_props(prog.drop_last(), table, bound);
        assert(label_ref(prog.last()) == label_ref(prog[prog.len() - 1]));
    }
}

/// Round-trip law: a source whose parse succeeds and whose label references
/// all resolve to an index inside the resolved sequence reduces to a program
/// with no label definitions left and every flow-control target in range.
pub proof fn lemma_parse_resolve_round_trip(source: Seq<char>, prog: Seq<Action>)
    requires
        spec_parse(tokens_of(source)) == Some(prog),
        refs_defined(prog),
        forall|i: int|
            0 <= i < prog.len() ==> ((#[trigger] label_ref(prog[i])) matches Some(l)
                ==> label_table(prog)[l] < out_count(prog)),
    ensures
        spec_reduce(prog).len() == out_count(prog),
        forall|j: int|
            0 <= j < spec_reduce(prog).len() ==> !is_label_def(#[trigger] spec_reduce(prog)[j]),
        forall|j: int|
            0 <= j < spec_reduce(prog).len() ==> ((#[trigger] label_ref(spec_reduce(prog)[j]))
                matches Some(t) ==> t < spec_reduce(prog).len()),
{
    lemma_reduce_with_props(prog, label_table(prog), out_count(prog));
}

/// Parses a source text whose token sequence the grammar accepts whole (no
/// instruction is truncated), returning the parsed instruction sequence.
pub fn parse(program: String) -> (r: Vec<Action>)
    requires
        spec_parse(tokens_of(program@)) is Some,
    ensures
        spec_parse(tokens_of(program@)) == Some(r@),
{
    let mut tokenizer = Tokenizer::new(program.as_str());
    _parse(&mut tokenizer).unwrap()
}

/// Parses any source text: the parsed instruction sequence, or `None` when
/// the source ends, or shows a line break, in the middle of an instruction.
pub fn try_parse(program: &str) -> (r: Option<Vec<Action>>)
    ensures
        match spec_parse(tokens_of(program@)) {
            None => r is None,
            Some(full) => r matches Some(v) && v@ == full,
        },
{
    let mut tokenizer = Tokenizer::new(program);
    _parse(&mut tokenizer)
}

} // verus!
