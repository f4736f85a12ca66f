use lzw_decode::{resolve, Code, DecodeError, Decoder, Dictionary, DictionaryEntry, Phase};

fn run(codes: &[Code]) -> (Result<Decoder, DecodeError>, Vec<u8>) {
    let mut out: Vec<u8> = Vec::new();
    let mut decoder: Decoder = Decoder::new();
    for &code in codes {
        match decoder.step(code, &mut out) {
            Ok(next) => decoder = next,
            Err(error) => return (Err(error), out),
        }
    }
    (Ok(decoder), out)
}

fn streaming(literals: &[u8]) -> (Decoder, Vec<u8>) {
    let mut codes: Vec<Code> = vec![Code::Command(1)];
    for &byte in literals {
        codes.push(Code::Value(byte));
    }
    let (decoder, out) = run(&codes);
    (decoder.unwrap(), out)
}

#[test]
fn decoder_starts_by_waiting_for_the_reset() {
    let decoder: Decoder = Decoder::new();
    assert_eq!(decoder.phase(), Phase::AwaitStart);
    assert!(!decoder.is_terminated());
    assert_eq!(decoder.dictionary_len(), 0);
}

#[test]
fn phases_follow_the_protocol() {
    let mut out: Vec<u8> = Vec::new();
    let decoder: Decoder = Decoder::new();
    let decoder: Decoder = decoder.step(Code::Command(1), &mut out).unwrap();
    assert_eq!(decoder.phase(), Phase::AwaitFirstLiteral);
    let decoder: Decoder = decoder.step(Code::Value(b'A'), &mut out).unwrap();
    assert_eq!(decoder.phase(), Phase::Streaming);
    let decoder: Decoder = decoder.step(Code::Value(b'B'), &mut out).unwrap();
    assert_eq!(decoder.phase(), Phase::Streaming);
    let decoder: Decoder = decoder.step(Code::Command(3), &mut out).unwrap();
    assert_eq!(decoder.phase(), Phase::AwaitFinalLiteral);
    assert!(!decoder.is_terminated());
    let decoder: Decoder = decoder.step(Code::Value(b'C'), &mut out).unwrap();
    assert_eq!(decoder.phase(), Phase::Terminated);
    assert!(decoder.is_terminated());
    assert_eq!(out, b"ABC".to_vec());
}

#[test]
fn first_code_must_be_the_reset() {
    let firsts: [Code; 5] =
        [Code::Value(0), Code::Command(0), Code::Command(2), Code::Command(3), Code::Index(0)];
    for &first in firsts.iter() {
        let (result, out) = run(&[first]);
        assert_eq!(result.err(), Some(DecodeError::MissingStartMarker));
        assert!(out.is_empty());
    }
}

#[test]
fn segment_must_start_with_a_literal() {
    let seconds: [Code; 4] =
        [Code::Index(0), Code::Command(1), Code::Command(2), Code::Command(3)];
    for &second in seconds.iter() {
        let (result, out) = run(&[Code::Command(1), second]);
        assert_eq!(result.err(), Some(DecodeError::ExpectedLiteral));
        assert!(out.is_empty());
    }
}

#[test]
fn end_of_stream_must_be_followed_by_a_literal() {
    let lasts: [Code; 3] = [Code::Index(0), Code::Command(3), Code::Command(1)];
    for &last in lasts.iter() {
        let (result, out) =
            run(&[Code::Command(1), Code::Value(b'A'), Code::Command(3), last]);
        assert_eq!(result.err(), Some(DecodeError::ExpectedFinalLiteral));
        assert_eq!(out, b"A".to_vec());
    }
}

#[test]
fn other_commands_are_ignored_inside_a_segment() {
    let (result, out) = run(&[
        Code::Command(1),
        Code::Value(b'A'),
        Code::Command(0),
        Code::Command(2),
        Code::Command(4),
        Code::Command(7),
        Code::Value(b'B'),
    ]);
    let decoder: Decoder = result.unwrap();
    assert_eq!(decoder.phase(), Phase::Streaming);
    assert_eq!(decoder.dictionary_len(), 1);
    assert_eq!(out, b"AB".to_vec());
}

#[test]
fn each_literal_after_the_first_adds_an_entry() {
    let (decoder, out) = streaming(b"A");
    assert_eq!(decoder.dictionary_len(), 0);
    assert_eq!(out, b"A".to_vec());
    let (decoder, out) = streaming(b"AB");
    assert_eq!(decoder.dictionary_len(), 1);
    assert_eq!(out, b"AB".to_vec());
    let (decoder, out) = streaming(b"ABCD");
    assert_eq!(decoder.dictionary_len(), 3);
    assert_eq!(out, b"ABCD".to_vec());
}

#[test]
fn indices_expand_to_earlier_runs() {
    let (result, out) = run(&[
        Code::Command(1),
        Code::Value(b'A'),
        Code::Value(b'B'),
        Code::Value(b'C'),
        Code::Index(0),
        Code::Index(2),
        Code::Index(3),
        Code::Command(3),
        Code::Value(b'Z'),
    ]);
    assert!(result.unwrap().is_terminated());
    assert_eq!(out, b"ABCABCAABCZ".to_vec());
}

#[test]
fn index_of_the_next_slot_repeats_the_previous_run() {
    let (result, out) = run(&[Code::Command(1), Code::Value(b'A'), Code::Index(0)]);
    assert_eq!(result.unwrap().dictionary_len(), 1);
    assert_eq!(out, b"AAA".to_vec());
    let (result, out) = run(&[
        Code::Command(1),
        Code::Value(b'A'),
        Code::Value(b'B'),
        Code::Index(1),
        Code::Index(2),
        Code::Index(1),
    ]);
    assert_eq!(result.unwrap().dictionary_len(), 4);
    // "A", "B", then slot 1 = "B" + "B", then slot 2 = "BB" + "B", then slot 1 again.
    assert_eq!(out, b"ABBBBBBBB".to_vec());
}

#[test]
fn index_beyond_the_next_slot_is_corrupt() {
    let (result, out) = run(&[Code::Command(1), Code::Value(b'A'), Code::Index(1)]);
    assert_eq!(result.err(), Some(DecodeError::CorruptChain));
    assert_eq!(out, b"A".to_vec());
    let (result, _) = run(&[Code::Command(1), Code::Value(b'A'), Code::Index(usize::MAX)]);
    assert_eq!(result.err(), Some(DecodeError::CorruptChain));
}

#[test]
fn reset_empties_the_dictionary() {
    let (before, _) = streaming(b"ABCD");
    assert_eq!(before.dictionary_len(), 3);
    let mut out: Vec<u8> = Vec::new();
    let after: Decoder = before.step(Code::Command(1), &mut out).unwrap();
    assert_eq!(after.phase(), Phase::AwaitFirstLiteral);
    assert_eq!(after.dictionary_len(), 0);
    let after: Decoder = after.step(Code::Value(b'X'), &mut out).unwrap();
    assert_eq!(after.dictionary_len(), 0);
    assert_eq!(out, b"X".to_vec());
}

#[test]
fn entries_of_an_earlier_segment_are_gone() {
    // In the first segment slot 0 is "AB"; in the second the same index
    // names the next free slot.
    let (result, out) = run(&[
        Code::Command(1),
        Code::Value(b'A'),
        Code::Value(b'B'),
        Code::Index(0),
        Code::Command(1),
        Code::Value(b'C'),
        Code::Index(0),
    ]);
    assert_eq!(result.unwrap().dictionary_len(), 1);
    assert_eq!(out, b"ABABCCC".to_vec());
    // And an index that the first segment could resolve is corrupt.
    let (result, _) = run(&[
        Code::Command(1),
        Code::Value(b'A'),
        Code::Value(b'B'),
        Code::Value(b'C'),
        Code::Index(1),
        Code::Command(1),
        Code::Value(b'C'),
        Code::Index(1),
    ]);
    assert_eq!(result.err(), Some(DecodeError::CorruptChain));
}

#[test]
fn dictionary_stops_growing_at_4096_entries() {
    let mut out: Vec<u8> = Vec::new();
    let mut decoder: Decoder = Decoder::new();
    decoder = decoder.step(Code::Command(1), &mut out).unwrap();
    decoder = decoder.step(Code::Value(0), &mut out).unwrap();
    let mut count: usize = 0;
    while count < 5000 {
        decoder = decoder.step(Code::Value((count % 251) as u8), &mut out).unwrap();
        count += 1;
        let expected: usize = if count < 4096 { count } else { 4096 };
        assert_eq!(decoder.dictionary_len(), expected);
    }
    assert_eq!(out.len(), 5001);
    // The last slot can still be read, and the one after it was never filled.
    let last: Decoder = decoder.step(Code::Index(4095), &mut out).unwrap();
    assert_eq!(last.dictionary_len(), 4096);
    assert_eq!(out.len(), 5003);
}

#[test]
fn full_dictionary_still_repeats_the_previous_run() {
    let mut out: Vec<u8> = Vec::new();
    let mut decoder: Decoder = Decoder::new();
    decoder = decoder.step(Code::Command(1), &mut out).unwrap();
    let mut count: usize = 0;
    while count < 4097 {
        decoder = decoder.step(Code::Value(b'x'), &mut out).unwrap();
        count += 1;
    }
    assert_eq!(decoder.dictionary_len(), 4096);
    out.clear();
    decoder = decoder.step(Code::Value(b'Q'), &mut out).unwrap();
    decoder = decoder.step(Code::Index(4096), &mut out).unwrap();
    assert_eq!(out, b"QQQ".to_vec());
    assert_eq!(decoder.dictionary_len(), 4096);
    // The entry was not added, so the same index has nothing to repeat now.
    assert_eq!(decoder.step(Code::Index(4096), &mut out).err(), Some(DecodeError::CorruptChain));
}

#[test]
fn long_run_keeps_the_next_code_from_adding_an_entry() {
    let mut out: Vec<u8> = Vec::new();
    let mut decoder: Decoder = Decoder::new();
    decoder = decoder.step(Code::Command(1), &mut out).unwrap();
    decoder = decoder.step(Code::Value(b'A'), &mut out).unwrap();
    // Index k names the next slot each time and is written as k + 2 bytes.
    let mut slot: usize = 0;
    while slot < 127 {
        let before: usize = out.len();
        decoder = decoder.step(Code::Index(slot), &mut out).unwrap();
        assert_eq!(out.len() - before, slot + 2);
        assert_eq!(decoder.dictionary_len(), slot + 1);
        slot += 1;
    }
    // The previous run had 128 bytes: this code is written out, 129 bytes
    // long, and adds nothing.
    let before: usize = out.len();
    decoder = decoder.step(Code::Index(127), &mut out).unwrap();
    assert_eq!(out.len() - before, 129);
    assert_eq!(decoder.dictionary_len(), 127);
    // Nor does the code after that run of 129.
    decoder = decoder.step(Code::Value(b'B'), &mut out).unwrap();
    assert_eq!(decoder.dictionary_len(), 127);
    // After the single byte, entries are added again.
    decoder = decoder.step(Code::Value(b'C'), &mut out).unwrap();
    assert_eq!(decoder.dictionary_len(), 128);
    assert!(out.iter().take(out.len() - 2).all(|&byte| byte == b'A'));
}

#[test]
fn run_of_127_bytes_still_lets_the_next_code_add_an_entry() {
    let mut out: Vec<u8> = Vec::new();
    let mut decoder: Decoder = Decoder::new();
    decoder = decoder.step(Code::Command(1), &mut out).unwrap();
    decoder = decoder.step(Code::Value(b'A'), &mut out).unwrap();
    let mut slot: usize = 0;
    while slot < 126 {
        decoder = decoder.step(Code::Index(slot), &mut out).unwrap();
        slot += 1;
    }
    // The last run had 127 bytes.
    assert_eq!(decoder.dictionary_len(), 126);
    decoder = decoder.step(Code::Value(b'B'), &mut out).unwrap();
    assert_eq!(decoder.dictionary_len(), 127);
}

#[test]
fn repeating_a_run_that_was_never_added_is_corrupt() {
    let mut out: Vec<u8> = Vec::new();
    let mut decoder: Decoder = Decoder::new();
    decoder = decoder.step(Code::Command(1), &mut out).unwrap();
    decoder = decoder.step(Code::Value(b'A'), &mut out).unwrap();
    let mut slot: usize = 0;
    while slot < 128 {
        decoder = decoder.step(Code::Index(slot), &mut out).unwrap();
        slot += 1;
    }
    assert_eq!(decoder.dictionary_len(), 127);
    let written: usize = out.len();
    assert_eq!(decoder.step(Code::Index(127), &mut out).err(), Some(DecodeError::CorruptChain));
    assert_eq!(out.len(), written);
}

#[test]
fn codes_after_the_end_change_nothing() {
    let (result, mut out) =
        run(&[Code::Command(1), Code::Value(b'A'), Code::Command(3), Code::Value(b'B')]);
    let decoder: Decoder = result.unwrap();
    let decoder: Decoder = decoder.step(Code::Value(b'C'), &mut out).unwrap();
    let decoder: Decoder = decoder.step(Code::Index(9), &mut out).unwrap();
    let decoder: Decoder = decoder.step(Code::Command(1), &mut out).unwrap();
    assert!(decoder.is_terminated());
    assert_eq!(out, b"AB".to_vec());
}

#[test]
fn failed_step_appends_nothing() {
    let (decoder, mut out) = streaming(b"AB");
    assert_eq!(decoder.step(Code::Index(7), &mut out).err(), Some(DecodeError::CorruptChain));
    assert_eq!(out, b"AB".to_vec());
}

#[test]
fn dictionary_expands_chains_in_output_order() {
    let mut dictionary: Dictionary = Dictionary::new();
    assert_eq!(dictionary.len(), 0);
    dictionary.push(DictionaryEntry { value: b'b', next: Code::Value(b'a') });
    dictionary.push(DictionaryEntry { value: b'c', next: Code::Index(0) });
    dictionary.push(DictionaryEntry { value: b'd', next: Code::Index(1) });
    assert_eq!(dictionary.len(), 3);
    assert_eq!(dictionary.expand(Code::Value(b'z')), Some(b"z".to_vec()));
    assert_eq!(dictionary.expand(Code::Index(0)), Some(b"ab".to_vec()));
    assert_eq!(dictionary.expand(Code::Index(1)), Some(b"abc".to_vec()));
    assert_eq!(dictionary.expand(Code::Index(2)), Some(b"abcd".to_vec()));
    assert_eq!(dictionary.expand(Code::Index(3)), None);
    assert_eq!(dictionary.expand(Code::Command(1)), None);
}

#[test]
fn resolve_tells_the_next_slot_from_the_others() {
    let mut dictionary: Dictionary = Dictionary::new();
    dictionary.push(DictionaryEntry { value: b'b', next: Code::Value(b'a') });
    let prev: Code = Code::Index(0);
    assert_eq!(resolve(&dictionary, prev, b'a', Code::Index(0)), Some(b"ab".to_vec()));
    assert_eq!(resolve(&dictionary, prev, b'a', Code::Index(1)), Some(b"aba".to_vec()));
    assert_eq!(resolve(&dictionary, prev, b'a', Code::Index(2)), None);
    assert_eq!(resolve(&dictionary, prev, b'a', Code::Value(b'q')), Some(b"q".to_vec()));
    assert_eq!(resolve(&dictionary, prev, b'a', Code::Command(2)), None);
    assert_eq!(resolve(&dictionary, Code::Index(1), b'a', Code::Index(1)), None);
}

#[test]
fn new_segment_forgets_the_length_of_the_last_run() {
    let mut out: Vec<u8> = Vec::new();
    let mut decoder: Decoder = Decoder::new();
    decoder = decoder.step(Code::Command(1), &mut out).unwrap();
    decoder = decoder.step(Code::Value(b'A'), &mut out).unwrap();
    let mut slot: usize = 0;
    while slot < 128 {
        decoder = decoder.step(Code::Index(slot), &mut out).unwrap();
        slot += 1;
    }
    // The segment ends on a run of 129 bytes.
    decoder = decoder.step(Code::Command(1), &mut out).unwrap();
    decoder = decoder.step(Code::Value(b'X'), &mut out).unwrap();
    assert_eq!(decoder.dictionary_len(), 0);
    // The first code after the segment's first literal adds an entry.
    decoder = decoder.step(Code::Value(b'Y'), &mut out).unwrap();
    assert_eq!(decoder.dictionary_len(), 1);
    out.clear();
    decoder = decoder.step(Code::Index(0), &mut out).unwrap();
    assert_eq!(out, b"XY".to_vec());
    assert_eq!(decoder.dictionary_len(), 2);
}
