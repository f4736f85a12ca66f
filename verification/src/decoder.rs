//! The decoder: a state machine over codes that rebuilds the dictionary and
//! writes the output.

use vstd::prelude::*;
use crate::code::{Code, REALIGN, RESET};
use crate::dictionary::{
    in_dictionary,
    lemma_run_not_empty,
    lemma_run_stable,
    links_back,
    precedes,
    run_of,
    Dictionary,
    DictionaryEntry,
    MAX_ENTRIES,
};
use crate::error::DecodeError;

verus! {

/// After a run of this many bytes or more, the next code adds no entry.
pub const LONG_RUN: usize = 0x80;

/// Where the decoder stands in the stream.
#[derive(Copy, Clone, Debug, PartialEq, Eq, Structural)]
pub enum Phase {
    /// Nothing was read yet: the reset command must come first.
    AwaitStart,
    /// A segment has begun: its first code must be a literal.
    AwaitFirstLiteral,
    /// Inside a segment.
    Streaming,
    /// The end-of-stream command was read: one literal must follow.
    AwaitFinalLiteral,
    /// The stream has ended.
    Terminated,
}

/// The decoder's state as plain values. Only inside a segment is there a
/// dictionary and a previous code.
pub enum DecoderState {
    AwaitStart,
    AwaitFirstLiteral,
    Streaming {
        /// The entries added in this segment, in order.
        dict: Seq<DictionaryEntry>,
        /// The last literal or index that was written out.
        prev: Code,
        /// The first byte of the last run that was written out.
        prev_literal: u8,
        /// The length of the last run; zero after the segment's first literal.
        prev_run_len: nat,
    },
    AwaitFinalLiteral,
    Terminated,
}

/// The byte run that `code` is written out as. An index of the next free
/// slot names the entry that this very code is about to add: the run of the
/// previous code, followed by that run's first byte. Every other code has
/// the run that the dictionary gives it.
pub open spec fn resolve_spec(
    dict: Seq<DictionaryEntry>,
    prev: Code,
    prev_literal: u8,
    code: Code,
) -> Option<Seq<u8>> {
    if code matches Code::Index(p) && p == dict.len() {
        match run_of(dict, prev) {
            Some(run) => Some(run.push(prev_literal)),
            None => None,
        }
    } else {
        run_of(dict, code)
    }
}

/// Whether the code after a run of `prev_run_len` bytes adds an entry to a
/// dictionary of `len` entries.
pub open spec fn grows(prev_run_len: nat, len: nat) -> bool {
    prev_run_len < 0x80 && len != 0x1000
}

impl DecoderState {
    /// The state at the start of a segment's body, after its first literal.
    pub open spec fn segment_start(first: u8) -> DecoderState {
        DecoderState::Streaming {
            dict: Seq::empty(),
            prev: Code::Value(first),
            prev_literal: first,
            prev_run_len: 0,
        }
    }

    /// The entry that a code with the run `run` adds after the code `prev`.
    pub open spec fn new_entry(run: Seq<u8>, prev: Code) -> DictionaryEntry {
        DictionaryEntry { value: run[0], next: prev }
    }

    /// The entries of the current segment; none outside a segment.
    pub open spec fn dictionary(self) -> Seq<DictionaryEntry> {
        match self {
            DecoderState::Streaming { dict, .. } => dict,
            _ => Seq::empty(),
        }
    }

    /// The phase that the state is in.
    pub open spec fn phase(self) -> Phase {
        match self {
            DecoderState::AwaitStart => Phase::AwaitStart,
            DecoderState::AwaitFirstLiteral => Phase::AwaitFirstLiteral,
            DecoderState::Streaming { .. } => Phase::Streaming,
            DecoderState::AwaitFinalLiteral => Phase::AwaitFinalLiteral,
            DecoderState::Terminated => Phase::Terminated,
        }
    }

    /// What holds of every state that decoding reaches.
    ///
    /// Inside a segment the dictionary is within its limit and its links point
    /// back; the previous code is a literal or an index of a slot, or of the
    /// next free slot where the entry it named was never added; in the first
    /// case its run starts with `prev_literal` and is no shorter than
    /// `prev_run_len`, in the second the next code adds no entry either.
    pub open spec fn wf(self) -> bool {
        match self {
            DecoderState::Streaming { dict, prev, prev_literal, prev_run_len } => {
                &&& dict.len() <= 0x1000
                &&& links_back(dict)
                &&& in_dictionary(dict, prev) || prev == Code::Index(dict.len() as usize)
                &&& in_dictionary(dict, prev) ==> (run_of(dict, prev) matches Some(run)
                    && run.len() >= 1 && run[0] == prev_literal && prev_run_len <= run.len())
                &&& !in_dictionary(dict, prev) ==> !grows(prev_run_len, dict.len())
            },
            _ => true,
        }
    }

    /// One step of the decoder: the state after `code` and the bytes written
    /// out for it, or the failure.
    pub open spec fn step(self, code: Code) -> Result<(DecoderState, Seq<u8>), DecodeError> {
        match self {
            DecoderState::AwaitStart => if code == Code::Command(1) {
                Ok((DecoderState::AwaitFirstLiteral, Seq::empty()))
            } else {
                Err(DecodeError::MissingStartMarker)
            },
            DecoderState::AwaitFirstLiteral => match code {
                Code::Value(first) => Ok((DecoderState::segment_start(first), seq![first])),
                _ => Err(DecodeError::ExpectedLiteral),
            },
            DecoderState::Streaming { dict, prev, prev_literal, prev_run_len } => match code {
                Code::Command(n) => if n == 1 {
                    Ok((DecoderState::AwaitFirstLiteral, Seq::empty()))
                } else if n == 3 {
                    Ok((DecoderState::AwaitFinalLiteral, Seq::empty()))
                } else {
                    Ok((self, Seq::empty()))
                },
                _ => match resolve_spec(dict, prev, prev_literal, code) {
                    None => Err(DecodeError::CorruptChain),
                    Some(run) => Ok(
                        (
                            DecoderState::Streaming {
                                dict: if grows(prev_run_len, dict.len()) {
                                    dict.push(DecoderState::new_entry(run, prev))
                                } else {
                                    dict
                                },
                                prev: code,
                                prev_literal: run[0],
                                prev_run_len: run.len(),
                            },
                            run,
                        ),
                    ),
                },
            },
            DecoderState::AwaitFinalLiteral => match code {
                Code::Value(last) => Ok((DecoderState::Terminated, seq![last])),
                _ => Err(DecodeError::ExpectedFinalLiteral),
            },
            DecoderState::Terminated => Ok((self, Seq::empty())),
        }
    }

    /// The steps for `codes`, one after the other: the last state and all
    /// bytes written out, or the first failure.
    pub open spec fn steps(self, codes: Seq<Code>) -> Result<(DecoderState, Seq<u8>), DecodeError>
        decreases codes.len(),
    {
        if codes.len() == 0 {
            Ok((self, Seq::empty()))
        } else {
            match self.step(codes[0]) {
                Err(error) => Err(error),
                Ok((next, emitted)) => match next.steps(codes.drop_first()) {
                    Err(error) => Err(error),
                    Ok((last, rest)) => Ok((last, emitted + rest)),
                },
            }
        }
    }
}

/// The literal codes of `bytes`, one for each byte.
pub open spec fn literals(bytes: Seq<u8>) -> Seq<Code> {
    Seq::new(bytes.len(), |i: int| Code::Value(bytes[i]))
}

/// The plainest stream of codes for `bytes`: a reset, every byte but the
/// last as a literal, the end-of-stream command, the last byte as a literal.
pub open spec fn literal_stream(bytes: Seq<u8>) -> Seq<Code> {
    seq![Code::Command(1)] + literals(bytes.drop_last()) + seq![
        Code::Command(3),
        Code::Value(bytes.last()),
    ]
}

/// Every step leads from a state that decoding can reach to another one. In
/// particular the dictionary never outgrows its limit and its chains never
/// run in a circle, whatever codes arrive.
pub proof fn lemma_step_preserves_wf(state: DecoderState, code: Code)
    requires
        state.wf(),
        state.step(code) is Ok,
    ensures
        state.step(code).unwrap().0.wf(),
{
    if let DecoderState::Streaming { dict, prev, prev_literal, prev_run_len } = state {
        if !(code is Command) {
            let run = resolve_spec(dict, prev, prev_literal, code).unwrap();
            let entry = DecoderState::new_entry(run, prev);
            let next = state.step(code).unwrap().0;
            let dict2 = next.dictionary();
            let names_next_slot = code matches Code::Index(p) && p == dict.len();
            lemma_run_not_empty(dict, code);
            lemma_run_not_empty(dict, prev);
            if grows(prev_run_len, dict.len()) {
                assert(in_dictionary(dict, prev));
                assert(dict2 == dict.push(entry));
                assert forall|i: int| 0 <= i < dict2.len() implies precedes(
                    (#[trigger] dict2[i]).next,
                    i,
                ) by {
                    if i < dict.len() {
                        assert(dict2[i] == dict[i]);
                    }
                }
                lemma_run_stable(dict, entry, prev);
                if !names_next_slot {
                    lemma_run_stable(dict, entry, code);
                } else {
                    assert(dict2[dict.len() as int] == entry);
                    assert(run_of(dict2, code) == Some(run));
                }
            }
        }
    }
}

/// Every run of steps leads from a state that decoding can reach to
/// another one: however many codes ask for a new entry, the dictionary
/// holds at most 4096 of them.
pub proof fn lemma_steps_preserve_wf(state: DecoderState, codes: Seq<Code>)
    requires
        state.wf(),
        state.steps(codes) is Ok,
    ensures
        state.steps(codes).unwrap().0.wf(),
        state.steps(codes).unwrap().0.dictionary().len() <= 0x1000,
    decreases codes.len(),
{
    if codes.len() > 0 {
        lemma_step_preserves_wf(state, codes[0]);
        lemma_steps_preserve_wf(state.step(codes[0]).unwrap().0, codes.drop_first());
    }
}

/// Within a segment the dictionary only grows, and by one entry at a time:
/// a step that stays in the segment leaves every entry in its slot and adds
/// at most one behind them, and it adds one exactly when the previous run
/// was short and the dictionary is not full.
pub proof fn lemma_dictionary_grows_by_appending(state: DecoderState, code: Code)
    requires
        state is Streaming,
        state.step(code) matches Ok((next, _)) && next is Streaming,
    ensures
        ({
            let dict = state.dictionary();
            let next = state.step(code).unwrap().0;
            let run = state.step(code).unwrap().1;
            let adds = !(code is Command) && grows(state->prev_run_len, dict.len());
            &&& adds ==> next.dictionary() == dict.push(
                DecoderState::new_entry(run, state->prev),
            )
            &&& !adds ==> next.dictionary() == dict
        }),
{
}

/// A reset forgets the segment before it: whatever dictionary and previous
/// code the decoder held, the state after the reset is the same, and it
/// holds no entry. Nor does the state after the first literal that follows.
pub proof fn lemma_reset_forgets_segment(a: DecoderState, b: DecoderState, first: u8)
    requires
        a is Streaming,
        b is Streaming,
    ensures
        a.step(Code::Command(1)) == b.step(Code::Command(1)),
        a.step(Code::Command(1)) matches Ok((next, emitted)) && emitted.len() == 0
            && next.dictionary().len() == 0 && next.step(Code::Value(first)) == Ok::<
            (DecoderState, Seq<u8>),
            DecodeError,
        >((DecoderState::segment_start(first), seq![first])),
        DecoderState::segment_start(first).dictionary().len() == 0,
        DecoderState::segment_start(first).wf(),
{
    assert(run_of(Seq::<DictionaryEntry>::empty(), Code::Value(first)) == Some(seq![first]));
}

/// An index of the next free slot is no lookup beyond the dictionary: it is
/// written out as the run of the previous code followed by that run's first
/// byte, which is the entry that the step then adds in that slot.
pub proof fn lemma_next_slot_repeats_previous_run(state: DecoderState)
    requires
        state.wf(),
        state matches DecoderState::Streaming { dict, prev, .. } && in_dictionary(dict, prev),
    ensures
        ({
            let dict = state->dict;
            let code = Code::Index(dict.len() as usize);
            let previous = run_of(dict, state->prev).unwrap();
            &&& run_of(dict, code) is None
            &&& resolve_spec(dict, state->prev, state->prev_literal, code) == Some(
                previous.push(state->prev_literal),
            )
            &&& state->prev_literal == previous[0]
            &&& state.step(code) matches Ok((next, emitted)) && emitted == previous.push(
                previous[0],
            ) && (grows(state->prev_run_len, dict.len()) ==> run_of(next.dictionary(), code)
                == Some(emitted))
        }),
{
    let dict = state->dict;
    let code = Code::Index(dict.len() as usize);
    let previous = run_of(dict, state->prev).unwrap();
    let emitted = previous.push(state->prev_literal);
    assert(resolve_spec(dict, state->prev, state->prev_literal, code) == Some(emitted));
    if grows(state->prev_run_len, dict.len()) {
        let entry = DecoderState::new_entry(emitted, state->prev);
        let grown = dict.push(entry);
        assert(grown[dict.len() as int] == entry);
        lemma_run_stable(dict, entry, state->prev);
        assert(run_of(grown, code) == Some(emitted));
    }
}

/// Literals are written out as they are: a run of literal codes inside a
/// segment yields exactly their bytes, whatever the dictionary holds.
pub proof fn lemma_literals_decode_to_themselves(state: DecoderState, bytes: Seq<u8>)
    requires
        state.wf(),
        state is Streaming,
    ensures
        state.steps(literals(bytes)) matches Ok((next, out)) && out == bytes && next.wf()
            && next is Streaming,
    decreases bytes.len(),
{
    let codes = literals(bytes);
    if bytes.len() == 0 {
        assert(state.steps(codes).unwrap().1 =~= bytes);
    } else {
        let first = Code::Value(bytes[0]);
        assert(codes[0] == first);
        assert(codes.drop_first() =~= literals(bytes.drop_first()));
        lemma_step_preserves_wf(state, first);
        let next = state.step(first).unwrap().0;
        lemma_literals_decode_to_themselves(next, bytes.drop_first());
        assert(seq![bytes[0]] + bytes.drop_first() =~= bytes);
    }
}

/// Every sequence of two bytes or more has a stream of literals that
/// decodes to it: the reset command, all bytes but the last as literals, the
/// end-of-stream command, and the last byte as a literal.
pub proof fn lemma_literal_stream_decodes(bytes: Seq<u8>)
    requires
        bytes.len() >= 2,
    ensures
        DecoderState::AwaitStart.steps(literal_stream(bytes)) == Ok::<
            (DecoderState, Seq<u8>),
            DecodeError,
        >((DecoderState::Terminated, bytes)),
{
    let body = bytes.drop_last().drop_first();
    let first = bytes[0];
    let last = bytes.last();
    let start = DecoderState::segment_start(first);
    let tail = seq![Code::Command(3), Code::Value(last)];
    let codes = literal_stream(bytes);
    assert(run_of(Seq::<DictionaryEntry>::empty(), Code::Value(first)) == Some(seq![first]));
    lemma_literals_decode_to_themselves(start, body);
    let middle = start.steps(literals(body)).unwrap().0;
    // The two codes at the end.
    assert(tail.drop_first() =~= seq![Code::Value(last)]);
    assert(tail.drop_first().drop_first() =~= Seq::<Code>::empty());
    assert(middle.steps(tail) == Ok::<(DecoderState, Seq<u8>), DecodeError>(
        (DecoderState::Terminated, seq![last]),
    )) by {
        reveal_with_fuel(DecoderState::steps, 3);
        let waiting = DecoderState::AwaitFinalLiteral;
        assert(waiting.steps(tail.drop_first()).unwrap().1 =~= seq![last]);
        assert(middle.steps(tail).unwrap().1 =~= seq![last]);
    }
    lemma_steps_concat(start, literals(body), tail);
    let rest = literals(body) + tail;
    assert(start.steps(rest) == Ok::<(DecoderState, Seq<u8>), DecodeError>(
        (DecoderState::Terminated, body + seq![last]),
    ));
    // The two codes at the start.
    let after_reset = seq![Code::Value(first)] + rest;
    assert(after_reset[0] == Code::Value(first));
    assert(after_reset.drop_first() =~= rest);
    assert(DecoderState::AwaitFirstLiteral.steps(after_reset) == Ok::<
        (DecoderState, Seq<u8>),
        DecodeError,
    >((DecoderState::Terminated, seq![first] + (body + seq![last]))));
    assert(literals(bytes.drop_last()) =~= seq![Code::Value(first)] + literals(body));
    assert(codes =~= seq![Code::Command(1)] + after_reset);
    assert(codes[0] == Code::Command(1));
    assert(codes.drop_first() =~= after_reset);
    assert(seq![first] + (body + seq![last]) =~= bytes);
    assert(Seq::<u8>::empty() + bytes =~= bytes);
}

/// Running two sequences of codes one after the other is running their
/// concatenation.
pub proof fn lemma_steps_concat(state: DecoderState, front: Seq<Code>, back: Seq<Code>)
    ensures
        state.steps(front + back) == match state.steps(front) {
            Err(error) => Err(error),
            Ok((middle, out)) => match middle.steps(back) {
                Err(error) => Err(error),
                Ok((last, rest)) => Ok((last, out + rest)),
            },
        },
    decreases front.len(),
{
    if front.len() == 0 {
        assert(front + back =~= back);
        if let Ok((last, rest)) = state.steps(back) {
            assert(Seq::<u8>::empty() + rest =~= rest);
        }
    } else {
        assert((front + back)[0] == front[0]);
        assert((front + back).drop_first() =~= front.drop_first() + back);
        if let Ok((next, emitted)) = state.step(front[0]) {
            lemma_steps_concat(next, front.drop_first(), back);
            if let Ok((middle, out)) = next.steps(front.drop_first()) {
                if let Ok((last, rest)) = middle.steps(back) {
                    assert(emitted + (out + rest) =~= (emitted + out) + rest);
                }
            }
        }
    }
}

/// Resolves `code` into its byte run, in output order, or reports that it
/// has none.
pub fn resolve(dictionary: &Dictionary, prev: Code, prev_literal: u8, code: Code) -> (result:
    Option<Vec<u8>>)
    ensures
        match resolve_spec(dictionary@, prev, prev_literal, code) {
            Some(run) => result matches Some(bytes) && bytes@ == run,
            None => result is None,
        },
{
    let next_slot = dictionary.len();
    let names_next_slot = match code {
        Code::Index(p) => p == next_slot,
        _ => false,
    };
    if names_next_slot {
        match dictionary.expand(prev) {
            Some(mut run) => {
                run.push(prev_literal);
                Some(run)
            },
            None => None,
        }
    } else {
        dictionary.expand(code)
    }
}

/// The decoder. It takes the codes of a stream one by one and appends the
/// bytes they stand for to the output.
pub struct Decoder {
    phase: Phase,
    dictionary: Dictionary,
    prev: Code,
    prev_literal: u8,
    prev_run_len: usize,
}

impl View for Decoder {
    type V = DecoderState;

    closed spec fn view(&self) -> DecoderState {
        match self.phase {
            Phase::AwaitStart => DecoderState::AwaitStart,
            Phase::AwaitFirstLiteral => DecoderState::AwaitFirstLiteral,
            Phase::Streaming => DecoderState::Streaming {
                dict: self.dictionary@,
                prev: self.prev,
                prev_literal: self.prev_literal,
                prev_run_len: self.prev_run_len as nat,
            },
            Phase::AwaitFinalLiteral => DecoderState::AwaitFinalLiteral,
            Phase::Terminated => DecoderState::Terminated,
        }
    }
}

impl Decoder {
    /// Every decoder is in a state that `DecoderState::wf` accepts.
    #[verifier::type_invariant]
    pub open spec fn inv(&self) -> bool {
        self@.wf()
    }

    /// A decoder at the start of a stream.
    pub fn new() -> (decoder: Decoder)
        ensures
            decoder@ == DecoderState::AwaitStart,
    {
        Decoder {
            phase: Phase::AwaitStart,
            dictionary: Dictionary::new(),
            prev: Code::Value(0),
            prev_literal: 0,
            prev_run_len: 0,
        }
    }

    /// The phase that the decoder is in.
    pub fn phase(&self) -> (phase: Phase)
        ensures
            phase == self@.phase(),
    {
        self.phase
    }

    /// Whether the stream has ended.
    pub fn is_terminated(&self) -> (done: bool)
        ensures
            done == (self@ is Terminated),
    {
        match self.phase {
            Phase::Terminated => true,
            _ => false,
        }
    }

    /// The number of entries in the current segment's dictionary; zero
    /// outside a segment.
    pub fn dictionary_len(&self) -> (len: usize)
        ensures
            len == self@.dictionary().len(),
            len <= MAX_ENTRIES,
    {
        match self.phase {
            Phase::Streaming => self.dictionary.len(),
            _ => 0,
        }
    }

    /// Takes one code: appends the bytes it stands for to `out` and returns
    /// the decoder in its next state. On failure nothing is appended.
    pub fn step(self, code: Code, out: &mut Vec<u8>) -> (result: Result<Decoder, DecodeError>)
        ensures
            match self@.step(code) {
                Ok((next, emitted)) => result matches Ok(decoder) && decoder@ == next
                    && final(out)@ == old(out)@ + emitted,
                Err(error) => result matches Err(e) && e == error && final(out)@ == old(out)@,
            },
    {
        proof {
            use_type_invariant(&self);
            if self@.step(code) is Ok {
                lemma_step_preserves_wf(self@, code);
            }
            assert(old(out)@ + Seq::<u8>::empty() =~= old(out)@);
        }
        let Decoder { phase, dictionary, prev, prev_literal, prev_run_len } = self;
        match phase {
            Phase::AwaitStart => match code {
                Code::Command(n) if n == RESET => Ok(
                    Decoder { phase: Phase::AwaitFirstLiteral, dictionary, prev, prev_literal, prev_run_len },
                ),
                _ => Err(DecodeError::MissingStartMarker),
            },
            Phase::AwaitFirstLiteral => match code {
                Code::Value(first) => {
                    out.push(first);
                    Ok(
                        Decoder {
                            phase: Phase::Streaming,
                            dictionary: Dictionary::new(),
                            prev: code,
                            prev_literal: first,
                            prev_run_len: 0,
                        },
                    )
                },
                _ => Err(DecodeError::ExpectedLiteral),
            },
            Phase::Streaming => match code {
                Code::Command(n) => {
                    let next = if n == RESET {
                        Phase::AwaitFirstLiteral
                    } else if n == REALIGN {
                        Phase::AwaitFinalLiteral
                    } else {
                        Phase::Streaming
                    };
                    Ok(Decoder { phase: next, dictionary, prev, prev_literal, prev_run_len })
                },
                _ => match resolve(&dictionary, prev, prev_literal, code) {
                    None => Err(DecodeError::CorruptChain),
                    Some(mut run) => {
                        proof {
                            lemma_run_not_empty(dictionary@, code);
                            lemma_run_not_empty(dictionary@, prev);
                        }
                        let first = run[0];
                        let run_len = run.len();
                        let mut dictionary = dictionary;
                        if prev_run_len < LONG_RUN && dictionary.len() != MAX_ENTRIES {
                            dictionary.push(DictionaryEntry { value: first, next: prev });
                        }
                        out.append(&mut run);
                        Ok(
                            Decoder {
                                phase: Phase::Streaming,
                                dictionary,
                                prev: code,
                                prev_literal: first,
                                prev_run_len: run_len,
                            },
                        )
                    },
                },
            },
            Phase::AwaitFinalLiteral => match code {
                Code::Value(last) => {
                    out.push(last);
                    Ok(Decoder { phase: Phase::Terminated, dictionary, prev, prev_literal, prev_run_len })
                },
                _ => Err(DecodeError::ExpectedFinalLiteral),
            },
            Phase::Terminated => Ok(Decoder { phase, dictionary, prev, prev_literal, prev_run_len }),
        }
    }
}

} // verus!
